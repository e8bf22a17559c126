//! State of the reels on screen: the order in which each reel shows the
//! symbols, drawn once per reel from a seed derived from the reel's position.

use crate::fruit::{fruit_at, fruit_index, lemma_fruit_index_bijective, Fruit, FRUIT_COUNT};
use rand::seq::SliceRandom;
use rand::SeedableRng;
use vstd::bytes::*;
use vstd::prelude::*;

verus! {

broadcast use vstd::seq_lib::group_to_multiset_ensures, vstd::multiset::group_multiset_axioms;

/// Stage of a reel's animation.
#[derive(Debug, Clone, Copy, PartialEq, Eq, Structural)]
pub enum WheelStage {
    Ready,
    PendingResults,
    HaveResults,
}

/// Order of the symbols on one reel.
#[derive(Debug, Clone, PartialEq, Eq)]
pub struct WheelShuffleState {
    pub pcnl_id: u32,
    /// The symbols in the order the reel shows them.
    pub shuffle: Vec<Fruit>,
    /// Position of each symbol in `shuffle`, by symbol index.
    pub idx: Vec<u32>,
}

/// Order of the symbols on every reel.
#[derive(Debug, Clone, PartialEq, Eq)]
pub struct ShuffleState {
    pub wheels: Vec<WheelShuffleState>,
}

/// Seed of a reel's shuffle: the little-endian bytes of the reel's position
/// and of the number of reels, repeated four times, each byte combined by
/// exclusive or with its own offset.
pub open spec fn wheel_seed(pcnl_id: u32, pcnl_count: u32) -> Seq<u8> {
    let unit = spec_u32_to_le_bytes(pcnl_id) + spec_u32_to_le_bytes(pcnl_count);
    Seq::new(32, |i: int| (i as u8) ^ unit[i % 8])
}

/// Symbol indices in enumeration order.
pub open spec fn symbol_indices() -> Seq<u8> {
    Seq::new(FRUIT_COUNT as nat, |i: int| i as u8)
}

/// Order in which a ChaCha20 generator seeded with `seed` shuffles `items`.
pub uninterp spec fn chacha20_shuffle(items: Seq<u8>, seed: Seq<u8>) -> Seq<u8>;

/// Relies on `rand_chacha::ChaCha20Rng::from_seed` and
/// `rand::seq::SliceRandom::shuffle`: a seeded generator is deterministic and
/// shuffling reorders the items without adding or losing any.
#[verifier::external_body]
fn shuffle_with_seed(items: Vec<u8>, seed: &Vec<u8>) -> (r: Vec<u8>)
    requires
        seed@.len() == 32,
    ensures
        r@ == chacha20_shuffle(items@, seed@),
        r@.to_multiset() == items@.to_multiset(),
{
    let seed: [u8; 32] = seed.as_slice().try_into().unwrap();
    let mut rng = rand_chacha::ChaCha20Rng::from_seed(seed);
    let mut items = items;
    items.shuffle(&mut rng);
    items
}

/// Seed bytes of a reel's shuffle.
pub fn wheel_seed_bytes(pcnl_id: u32, pcnl_count: u32) -> (r: Vec<u8>)
    ensures
        r@ == wheel_seed(pcnl_id, pcnl_count),
{
    proof {
        lemma_auto_spec_u32_to_from_le_bytes();
    }
    let mut unit = u32_to_le_bytes(pcnl_id);
    let mut c = u32_to_le_bytes(pcnl_count);
    unit.append(&mut c);
    let mut r: Vec<u8> = Vec::new();
    let mut i: usize = 0;
    while i < 32
        invariant
            i <= 32,
            unit@ == spec_u32_to_le_bytes(pcnl_id) + spec_u32_to_le_bytes(pcnl_count),
            unit@.len() == 8,
            r@ == wheel_seed(pcnl_id, pcnl_count).take(i as int),
        decreases 32 - i,
    {
        r.push((i as u8) ^ unit[i % 8]);
        proof {
            assert(r@ =~= wheel_seed(pcnl_id, pcnl_count).take(i + 1));
        }
        i = i + 1;
    }
    proof {
        assert(r@ =~= wheel_seed(pcnl_id, pcnl_count));
    }
    r
}

/// The symbols that a permutation of the symbol indices names, in its order.
pub fn fruits_from_indices(order: &Vec<u8>) -> (r: Vec<Fruit>)
    requires
        order@.to_multiset() == symbol_indices().to_multiset(),
    ensures
        r@ == order@.map_values(|i: u8| fruit_at(i as int)),
{
    let mut r: Vec<Fruit> = Vec::new();
    let mut k: usize = 0;
    while k < order.len()
        invariant
            k <= order@.len(),
            order@.to_multiset() == symbol_indices().to_multiset(),
            r@ == order@.take(k as int).map_values(|i: u8| fruit_at(i as int)),
        decreases order@.len() - k,
    {
        let i = order[k];
        proof {
            assert(order@.to_multiset().contains(i));
            assert(symbol_indices().to_multiset().contains(i));
            assert(symbol_indices().contains(i));
        }
        let f = match Fruit::from_index(i) {
            Some(f) => f,
            None => Fruit::cherry,
        };
        r.push(f);
        proof {
            assert(r@ =~= order@.take(k + 1).map_values(|i: u8| fruit_at(i as int)));
        }
        k = k + 1;
    }
    proof {
        assert(order@.take(order@.len() as int) =~= order@);
    }
    r
}

/// The order in which reel `pcnl_id` of `pcnl_count` shows the symbols.
pub fn get_wheel_shuffle(pcnl_id: u32, pcnl_count: u32) -> (r: Vec<Fruit>)
    ensures
        r@.len() == FRUIT_COUNT,
        r@ == chacha20_shuffle(symbol_indices(), wheel_seed(pcnl_id, pcnl_count)).map_values(
            |i: u8| fruit_at(i as int),
        ),
{
    let mut indices: Vec<u8> = Vec::new();
    let mut i: u8 = 0;
    while i < FRUIT_COUNT as u8
        invariant
            i <= FRUIT_COUNT,
            indices@ == symbol_indices().take(i as int),
        decreases FRUIT_COUNT - i,
    {
        indices.push(i);
        proof {
            assert(indices@ =~= symbol_indices().take(i + 1));
        }
        i = i + 1;
    }
    proof {
        assert(indices@ =~= symbol_indices());
    }
    let seed = wheel_seed_bytes(pcnl_id, pcnl_count);
    let order = shuffle_with_seed(indices, &seed);
    proof {
        assert(order@.to_multiset().len() == order@.len());
        assert(symbol_indices().to_multiset().len() == symbol_indices().len());
    }
    fruits_from_indices(&order)
}

/// Position of each symbol in `shuffle`, by symbol index; symbols that do
/// not occur keep position zero.
pub open spec fn positions_of(shuffle: Seq<Fruit>) -> Seq<u32>
    decreases shuffle.len(),
{
    if shuffle.len() == 0 {
        Seq::new(FRUIT_COUNT as nat, |i: int| 0u32)
    } else {
        positions_of(shuffle.drop_last()).update(
            fruit_index(shuffle.last()),
            (shuffle.len() - 1) as u32,
        )
    }
}

impl WheelShuffleState {
    /// The shuffle of reel `pcnl_id` of `pcnl_count`, with the position of
    /// each symbol in it.
    pub fn new(pcnl_id: u32, pcnl_count: u32) -> (r: WheelShuffleState)
        ensures
            r.pcnl_id == pcnl_id,
            r.shuffle@ == chacha20_shuffle(symbol_indices(), wheel_seed(pcnl_id, pcnl_count)).map_values(
                |i: u8| fruit_at(i as int),
            ),
            r.idx@ == positions_of(r.shuffle@),
    {
        let shuffle = get_wheel_shuffle(pcnl_id, pcnl_count);
        let idx = shuffle_positions(&shuffle);
        WheelShuffleState { pcnl_id, shuffle, idx }
    }
}

/// Position of each symbol in `shuffle`, by symbol index.
pub fn shuffle_positions(shuffle: &Vec<Fruit>) -> (r: Vec<u32>)
    requires
        shuffle@.len() <= u32::MAX,
    ensures
        r@ == positions_of(shuffle@),
{
    proof {
        lemma_fruit_index_bijective();
    }
    let mut idx: Vec<u32> = Vec::new();
    let mut k: usize = 0;
    while k < FRUIT_COUNT
        invariant
            k <= FRUIT_COUNT,
            idx@ == Seq::new(k as nat, |i: int| 0u32),
        decreases FRUIT_COUNT - k,
    {
        idx.push(0);
        proof {
            assert(idx@ =~= Seq::new((k + 1) as nat, |i: int| 0u32));
        }
        k = k + 1;
    }
    let mut j: usize = 0;
    while j < shuffle.len()
        invariant
            j <= shuffle@.len() <= u32::MAX,
            forall|f: Fruit| 0 <= #[trigger] fruit_index(f) < FRUIT_COUNT,
            idx@ == positions_of(shuffle@.take(j as int)),
            idx@.len() == FRUIT_COUNT,
        decreases shuffle@.len() - j,
    {
        let f = shuffle[j];
        idx.set(f.index() as usize, j as u32);
        proof {
            assert(shuffle@.take(j + 1).drop_last() =~= shuffle@.take(j as int));
            assert(positions_of(shuffle@.take(j as int)).len() == FRUIT_COUNT) by {
                lemma_positions_len(shuffle@.take(j as int));
            }
        }
        j = j + 1;
    }
    proof {
        assert(shuffle@.take(shuffle@.len() as int) =~= shuffle@);
    }
    idx
}

proof fn lemma_positions_len(s: Seq<Fruit>)
    ensures
        positions_of(s).len() == FRUIT_COUNT,
    decreases s.len(),
{
    if s.len() > 0 {
        lemma_positions_len(s.drop_last());
    }
}

/// Slots a reel of `pic_count` pictures turns to go from position `old_idx`
/// to position `new_idx`: the distance modulo the number of pictures, and a
/// full turn when the two coincide.
pub open spec fn slots_to_turn(pic_count: int, new_idx: int, old_idx: int) -> int {
    let d = (pic_count - new_idx + old_idx) % pic_count;
    if d == 0 {
        pic_count
    } else {
        d
    }
}

/// Slots a reel of `pic_count` pictures turns to go from position `old_idx`
/// to position `new_idx`.
pub fn slot_diff(pic_count: u32, new_idx: u32, old_idx: u32) -> (r: u32)
    requires
        new_idx < pic_count,
        old_idx < pic_count,
    ensures
        r == slots_to_turn(pic_count as int, new_idx as int, old_idx as int),
        1 <= r <= pic_count,
{
    let d = ((pic_count - new_idx) as u64 + old_idx as u64) % pic_count as u64;
    if d == 0 {
        pic_count
    } else {
        d as u32
    }
}

impl ShuffleState {
    /// The shuffles of all `pcnl_count` reels.
    pub fn new(pcnl_count: u32) -> (r: ShuffleState)
        ensures
            r.wheels@.len() == pcnl_count,
            forall|i: int|
                0 <= i < pcnl_count ==> (#[trigger] r.wheels@[i]).pcnl_id == i && r.wheels@[i].shuffle@
                    == chacha20_shuffle(symbol_indices(), wheel_seed(i as u32, pcnl_count)).map_values(
                    |k: u8| fruit_at(k as int),
                ),
    {
        let mut wheels: Vec<WheelShuffleState> = Vec::new();
        let mut i: u32 = 0;
        while i < pcnl_count
            invariant
                i <= pcnl_count,
                wheels@.len() == i,
                forall|k: int|
                    0 <= k < i ==> (#[trigger] wheels@[k]).pcnl_id == k && wheels@[k].shuffle@
                        == chacha20_shuffle(symbol_indices(), wheel_seed(k as u32, pcnl_count)).map_values(
                        |x: u8| fruit_at(x as int),
                    ),
            decreases pcnl_count - i,
        {
            wheels.push(WheelShuffleState::new(i, pcnl_count));
            i = i + 1;
        }
        ShuffleState { wheels }
    }
}

} // verus!
