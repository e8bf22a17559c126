//! Binary form of a spin outcome, as the ledger program returns it: the number
//! of symbols (8 bytes), each symbol index (4 bytes), then the reward
//! (2 bytes), all little-endian. Clients receive it base64-encoded.

use crate::codec::decode_fruit;
use crate::fruit::{fruit_index, lemma_fruit_index_bijective, Fruit, FRUIT_COUNT};
use base64::Engine;
use vstd::bytes::*;
use vstd::prelude::*;
use vstd::slice::slice_subrange;

verus! {

/// Bytes of a sequence of symbols.
pub open spec fn fruits_bytes(s: Seq<Fruit>) -> Seq<u8>
    decreases s.len(),
{
    if s.len() == 0 {
        Seq::empty()
    } else {
        fruits_bytes(s.drop_last()) + spec_u32_to_le_bytes(fruit_index(s.last()) as u32)
    }
}

/// Bytes of a spin outcome.
pub open spec fn encode_spin(symbols: Seq<Fruit>, reward: u16) -> Seq<u8> {
    spec_u64_to_le_bytes(symbols.len() as u64) + fruits_bytes(symbols) + spec_u16_to_le_bytes(
        reward,
    )
}

/// The `i`-th symbol of an area starting at `start`.
pub open spec fn fruit_entry_at(b: Seq<u8>, start: int, i: int) -> Option<Fruit> {
    decode_fruit(b.subrange(start + 4 * i, start + 4 * i + 4))
}

/// The spin outcome that bytes hold, if they hold one.
pub open spec fn decode_spin(b: Seq<u8>) -> Option<(Seq<Fruit>, u16)> {
    if b.len() < 8 {
        None
    } else {
        let n = spec_u64_from_le_bytes(b.subrange(0, 8)) as int;
        if b.len() != 8 + 4 * n + 2 {
            None
        } else if exists|i: int| 0 <= i < n && (#[trigger] fruit_entry_at(b, 8, i)) is None {
            None
        } else {
            Some(
                (
                    Seq::new(n as nat, |i: int| fruit_entry_at(b, 8, i)->Some_0),
                    spec_u16_from_le_bytes(b.subrange(b.len() - 2, b.len() as int)),
                ),
            )
        }
    }
}

proof fn lemma_fruits_layout(s: Seq<Fruit>)
    ensures
        fruits_bytes(s).len() == 4 * s.len(),
        forall|i: int|
            0 <= i < s.len() ==> fruits_bytes(s).subrange(4 * i, 4 * i + 4)
                == spec_u32_to_le_bytes(fruit_index(#[trigger] s[i]) as u32),
    decreases s.len(),
{
    lemma_auto_spec_u32_to_from_le_bytes();
    if s.len() > 0 {
        let p = s.drop_last();
        lemma_fruits_layout(p);
        assert forall|i: int| 0 <= i < s.len() implies fruits_bytes(s).subrange(4 * i, 4 * i + 4)
            == spec_u32_to_le_bytes(fruit_index(#[trigger] s[i]) as u32) by {
            if i < s.len() - 1 {
                assert(fruits_bytes(s).subrange(4 * i, 4 * i + 4) =~= fruits_bytes(p).subrange(
                    4 * i,
                    4 * i + 4,
                ));
                assert(p[i] == s[i]);
            } else {
                assert(fruits_bytes(s).subrange(4 * i, 4 * i + 4) =~= spec_u32_to_le_bytes(
                    fruit_index(s.last()) as u32,
                ));
            }
        }
    }
}

/// Round trip: decoding the bytes of a spin outcome gives back the same
/// symbols, in the same order, and the same reward.
pub proof fn lemma_spin_round_trip(symbols: Seq<Fruit>, reward: u16)
    requires
        symbols.len() <= u64::MAX,
    ensures
        decode_spin(encode_spin(symbols, reward)) == Some((symbols, reward)),
{
    lemma_fruit_index_bijective();
    lemma_fruits_layout(symbols);
    lemma_auto_spec_u16_to_from_le_bytes();
    lemma_auto_spec_u32_to_from_le_bytes();
    lemma_auto_spec_u64_to_from_le_bytes();
    let b = encode_spin(symbols, reward);
    let n = symbols.len() as int;
    let fb = fruits_bytes(symbols);
    assert(b.subrange(0, 8) =~= spec_u64_to_le_bytes(n as u64));
    assert(b.subrange(8, 8 + 4 * n) =~= fb);
    assert(b.subrange(b.len() - 2, b.len() as int) =~= spec_u16_to_le_bytes(reward));
    assert forall|i: int| 0 <= i < n implies #[trigger] fruit_entry_at(b, 8, i) == Some(
        symbols[i],
    ) by {
        assert(b.subrange(8 + 4 * i, 8 + 4 * i + 4) =~= fb.subrange(4 * i, 4 * i + 4));
    }
    assert(Seq::new(n as nat, |i: int| fruit_entry_at(b, 8, i)->Some_0) =~= symbols);
}

/// Bytes of a spin outcome.
pub fn encode_spin_result(symbols: &Vec<Fruit>, reward: u16) -> (r: Vec<u8>)
    ensures
        r@ == encode_spin(symbols@, reward),
{
    let mut out = u64_to_le_bytes(symbols.len() as u64);
    let ghost head = out@;
    let mut i: usize = 0;
    while i < symbols.len()
        invariant
            i <= symbols@.len(),
            head == spec_u64_to_le_bytes(symbols@.len() as u64),
            out@ == head + fruits_bytes(symbols@.take(i as int)),
        decreases symbols@.len() - i,
    {
        let mut b = u32_to_le_bytes(symbols[i].index() as u32);
        out.append(&mut b);
        proof {
            assert(symbols@.take(i + 1).drop_last() =~= symbols@.take(i as int));
            assert(out@ =~= head + fruits_bytes(symbols@.take(i + 1)));
        }
        i = i + 1;
    }
    proof {
        assert(symbols@.take(symbols@.len() as int) =~= symbols@);
    }
    let mut tail = u16_to_le_bytes(reward);
    out.append(&mut tail);
    out
}

/// Decodes the bytes of a spin outcome; `None` exactly when they hold none.
pub fn decode_spin_result(b: &[u8]) -> (r: Option<(Vec<Fruit>, u16)>)
    ensures
        r matches Some(x) ==> decode_spin(b@) == Some((x.0@, x.1)),
        r is None <==> decode_spin(b@) is None,
{
    let len = b.len();
    if len < 8 {
        return None;
    }
    let n = u64_from_le_bytes(slice_subrange(b, 0, 8));
    if (n as u128) * 4 + 10 != len as u128 {
        return None;
    }
    let n = n as usize;
    let mut symbols: Vec<Fruit> = Vec::new();
    let mut i: usize = 0;
    while i < n
        invariant
            b@.len() == len,
            n == spec_u64_from_le_bytes(b@.subrange(0, 8)),
            len == 8 + 4 * n + 2,
            i <= n,
            forall|k: int| 0 <= k < i ==> (#[trigger] fruit_entry_at(b@, 8, k)) is Some,
            symbols@ == Seq::new(i as nat, |k: int| fruit_entry_at(b@, 8, k)->Some_0),
        decreases n - i,
    {
        let start: usize = 8 + 4 * i;
        let idx = u32_from_le_bytes(slice_subrange(b, start, start + 4));
        if idx >= FRUIT_COUNT as u32 {
            assert(fruit_entry_at(b@, 8, i as int) is None);
            return None;
        }
        let f = match Fruit::from_index(idx as u8) {
            Some(f) => f,
            None => {
                return None;
            },
        };
        symbols.push(f);
        proof {
            assert(symbols@ =~= Seq::new((i + 1) as nat, |k: int| fruit_entry_at(b@, 8, k)->Some_0));
        }
        i = i + 1;
    }
    let reward = u16_from_le_bytes(slice_subrange(b, len - 2, len));
    Some((symbols, reward))
}

/// What the standard base64 alphabet, with padding, decodes a text to; `None`
/// when the text is not valid base64.
pub uninterp spec fn base64_decoded(s: Seq<char>) -> Option<Seq<u8>>;

/// Relies on `base64::engine::Engine::decode` of
/// `base64::engine::general_purpose::STANDARD`: the bytes a text decodes to, a
/// function of the text alone, or an error for text that is not base64.
#[verifier::external_body]
fn base64_decode(s: &str) -> (r: Option<Vec<u8>>)
    ensures
        r matches Some(v) ==> base64_decoded(s@) == Some(v@),
        r is None <==> base64_decoded(s@) is None,
{
    base64::engine::general_purpose::STANDARD.decode(s).ok()
}

/// Why the return data of a spin could not be read.
#[derive(Debug, Clone, Copy, PartialEq, Eq, Structural)]
pub enum ReturnDataError {
    /// The text is not base64.
    NotBase64,
    /// The bytes do not hold a spin outcome.
    NotSpinResult,
}

/// Reads the spin outcome from the base64 return data of the ledger program.
pub fn spin_result_from_return_data(data: &str) -> (r: Result<(Vec<Fruit>, u16), ReturnDataError>)
    ensures
        base64_decoded(data@) is None <==> r == Err::<(Vec<Fruit>, u16), _>(ReturnDataError::NotBase64),
        base64_decoded(data@) matches Some(b) ==> match r {
            Ok(x) => decode_spin(b) == Some((x.0@, x.1)),
            Err(e) => e == ReturnDataError::NotSpinResult && decode_spin(b) is None,
        },
{
    match base64_decode(data) {
        None => Err(ReturnDataError::NotBase64),
        Some(bytes) => match decode_spin_result(bytes.as_slice()) {
            Some(x) => Ok(x),
            None => Err(ReturnDataError::NotSpinResult),
        },
    }
}

} // verus!
