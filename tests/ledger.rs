use pacanele::fruit::Fruit;
use pacanele::ledger::{bet_amount, get_recent_block_hashes, mix_entropy, win_lamports};
use pacanele::outcome::{decode_spin_result, encode_spin_result, spin_result_from_return_data, ReturnDataError};
use pacanele::rule_set::RuleSet;
use rand::{Rng, SeedableRng};

#[test]
fn spin_result_bytes() {
    let bytes = encode_spin_result(&vec![Fruit::cherry, Fruit::cherry, Fruit::lemon], 12);
    assert_eq!(
        bytes,
        vec![3, 0, 0, 0, 0, 0, 0, 0, 0, 0, 0, 0, 0, 0, 0, 0, 1, 0, 0, 0, 12, 0]
    );
    assert_eq!(
        decode_spin_result(&bytes),
        Some((vec![Fruit::cherry, Fruit::cherry, Fruit::lemon], 12))
    );
}

#[test]
fn spin_result_matches_bincode() {
    let symbols = vec![Fruit::seven, Fruit::bell, Fruit::seven];
    let indices: Vec<u32> = symbols.iter().map(|f| f.index() as u32).collect();
    let expected = bincode::serialize(&(indices, 55666u16)).unwrap();
    assert_eq!(encode_spin_result(&symbols, 55666), expected);
}

#[test]
fn malformed_spin_results_are_rejected() {
    assert_eq!(decode_spin_result(&[]), None);
    assert_eq!(decode_spin_result(&[0, 0, 0, 0, 0, 0, 0, 0, 5]), None);
    assert_eq!(decode_spin_result(&[0, 0, 0, 0, 0, 0, 0, 0, 5, 0]), Some((vec![], 5)));
    assert_eq!(decode_spin_result(&[1, 0, 0, 0, 0, 0, 0, 0, 12, 0, 0, 0, 5, 0]), None);
    assert_eq!(
        decode_spin_result(&[1, 0, 0, 0, 0, 0, 0, 0, 11, 0, 0, 0, 5, 0]),
        Some((vec![Fruit::seven], 5))
    );
}

#[test]
fn return_data_is_base64_of_spin_result() {
    assert_eq!(
        spin_result_from_return_data("AwAAAAAAAAAAAAAAAAAAAAEAAAAMAA=="),
        Ok((vec![Fruit::cherry, Fruit::cherry, Fruit::lemon], 12))
    );
    assert_eq!(spin_result_from_return_data("not base64!"), Err(ReturnDataError::NotBase64));
    assert_eq!(spin_result_from_return_data("AAAA"), Err(ReturnDataError::NotSpinResult));
}

#[test]
fn entropy_mixing() {
    let r = mix_entropy(&[1, 2, 0xff00, u64::MAX], &[1, 1, 0x00ff, 0]);
    let mut expected = vec![0u8; 8];
    expected.extend([3, 0, 0, 0, 0, 0, 0, 0]);
    expected.extend([0xff, 0xff, 0, 0, 0, 0, 0, 0]);
    expected.extend([0xff; 8]);
    assert_eq!(r, expected);
}

#[test]
fn block_hash_words() {
    assert_eq!(get_recent_block_hashes(&[0u8; 23]), None);
    let data: Vec<u8> = (0..48u8).collect();
    let word = |at: usize| u64::from_le_bytes(data[at..at + 8].try_into().unwrap());
    assert_eq!(
        get_recent_block_hashes(&data),
        Some(vec![word(16), word(32), word(24), word(16)])
    );
    let short: Vec<u8> = (0..24u8).collect();
    let w = |at: usize| u64::from_le_bytes(short[at..at + 8].try_into().unwrap());
    assert_eq!(get_recent_block_hashes(&short), Some(vec![w(16), w(8), w(12), w(8)]));
}

#[test]
fn entropy_spin_uses_chacha8_seed() {
    let rs = RuleSet::default_internal_deserialize().unwrap();
    let entropy: Vec<u8> = (0..32u8).map(|i| i.wrapping_mul(37)).collect();
    let seed: [u8; 32] = entropy.clone().try_into().unwrap();
    let words: [u16; 3] = rand_chacha::ChaCha8Rng::from_seed(seed).gen();
    assert_eq!(rs.play_from_entropy(&entropy), rs.play_random_from_seed(&words));
    assert_eq!(rs.play_from_entropy(&entropy), rs.play_from_entropy(&entropy));
}

#[test]
fn bets_are_powers_of_two_within_limits() {
    assert_eq!(bet_amount(10, u64::MAX, u64::MAX), None);
    assert_eq!(bet_amount(17, u64::MAX, u64::MAX), None);
    assert_eq!(bet_amount(18, u64::MAX, u64::MAX), Some(262144));
    assert_eq!(bet_amount(62, u64::MAX, u64::MAX), Some(1 << 62));
    assert_eq!(bet_amount(63, u64::MAX, u64::MAX), None);
    assert_eq!(bet_amount(20, 1 << 20, u64::MAX), None);
    assert_eq!(bet_amount(20, (1 << 20) + 1, 1 << 20), None);
    assert_eq!(bet_amount(20, (1 << 20) + 1, (1 << 20) + 1), Some(1 << 20));
}

#[test]
fn payouts_are_capped_by_the_bank() {
    assert_eq!(win_lamports(1 << 20, 3, 1_000_000_000_000), 3 << 20);
    assert_eq!(win_lamports(1 << 20, 0, 1_000_000_000_000), 0);
    assert_eq!(win_lamports(1 << 30, 55666, 10_000_000), 10_000_000 / 2 - 2 * 890880);
    assert_eq!(win_lamports(1 << 30, 2, 3_000_000), 0);
    assert_eq!(win_lamports(u64::MAX, 55666, u64::MAX), u64::MAX / 2 - 2 * 890880);
}
