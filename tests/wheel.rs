use pacanele::fruit::Fruit;
use pacanele::wheel::{get_wheel_shuffle, slot_diff, wheel_seed_bytes, ShuffleState, WheelShuffleState, WheelStage};
use rand::seq::SliceRandom;
use rand::SeedableRng;

#[test]
fn seed_bytes_of_a_reel() {
    let seed = wheel_seed_bytes(1, 3);
    let unit = [1u8, 0, 0, 0, 3, 0, 0, 0];
    let expected: Vec<u8> = (0..32).map(|i| (i as u8) ^ unit[i % 8]).collect();
    assert_eq!(seed, expected);
}

#[test]
fn shuffle_matches_seeded_chacha20() {
    for id in 0..3u32 {
        let seed: [u8; 32] = wheel_seed_bytes(id, 3).try_into().unwrap();
        let mut expected = Fruit::all();
        expected.shuffle(&mut rand_chacha::ChaCha20Rng::from_seed(seed));
        assert_eq!(get_wheel_shuffle(id, 3), expected);
    }
}

#[test]
fn shuffle_is_a_permutation() {
    let mut s = get_wheel_shuffle(0, 3);
    assert_ne!(s, Fruit::all());
    s.sort();
    assert_eq!(s, Fruit::all());
}

#[test]
fn positions_invert_the_shuffle() {
    let w = WheelShuffleState::new(2, 3);
    assert_eq!(w.pcnl_id, 2);
    assert_eq!(w.idx.len(), 12);
    for (pos, f) in w.shuffle.iter().enumerate() {
        assert_eq!(w.idx[f.index() as usize], pos as u32);
    }
}

#[test]
fn shuffle_state_of_all_reels() {
    let s = ShuffleState::new(3);
    assert_eq!(s.wheels.len(), 3);
    for (i, w) in s.wheels.iter().enumerate() {
        assert_eq!(w.pcnl_id, i as u32);
        assert_eq!(w.shuffle, get_wheel_shuffle(i as u32, 3));
    }
    assert_ne!(WheelStage::Ready, WheelStage::HaveResults);
}

#[test]
fn slots_between_positions() {
    assert_eq!(slot_diff(12, 3, 5), 2);
    assert_eq!(slot_diff(12, 5, 3), 10);
    assert_eq!(slot_diff(12, 4, 4), 12);
    assert_eq!(slot_diff(12, 0, 11), 11);
    assert_eq!(slot_diff(12, 11, 0), 1);
    assert_eq!(slot_diff(1, 0, 0), 1);
}
