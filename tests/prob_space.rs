use pacanele::prob_space::complete_prob_space;

fn assert_complete(v: &[u16], n: usize) {
    assert_eq!(v.len(), n);
    assert_eq!(v.iter().map(|x| *x as u32).sum::<u32>(), 65535);
    assert!(v.windows(2).all(|w| w[0] >= w[1]));
}

#[test]
fn completed_space_sums_to_total() {
    let quantized = vec![5461u16, 5461, 5461, 5461, 5461, 5461, 5461, 5461, 5461, 5461, 5461, 5461];
    let r = complete_prob_space(quantized.clone());
    assert_complete(&r, 12);
    assert!(r.iter().all(|w| *w >= 5461));
}

#[test]
fn completed_space_is_sorted_descending() {
    let r = complete_prob_space(vec![100, 30000, 7, 20000]);
    assert_complete(&r, 4);
    assert!(r[0] >= 30000);
}

#[test]
fn complete_space_is_kept() {
    let r = complete_prob_space(vec![535, 60000, 5000]);
    assert_eq!(r, vec![60000, 5000, 535]);
}

#[test]
fn empty_weights_receive_all_mass() {
    let r = complete_prob_space(vec![0, 0, 0]);
    assert_complete(&r, 3);
    let single = complete_prob_space(vec![0]);
    assert_eq!(single, vec![65535]);
}
