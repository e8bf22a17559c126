//! Binary artifact of a rule set.
//!
//! Layout, all integers little-endian: the number of probability entries
//! (8 bytes), each entry as symbol index (4 bytes) and weight (2 bytes); the
//! number of reward entries (8 bytes), each entry as symbol index (4 bytes),
//! hit count (1 byte) and reward (2 bytes); then the reel count (1 byte).
//! Only the encoding of a well-formed rule set decodes.

use crate::fruit::{fruit_at, fruit_index, lemma_fruit_index_bijective, Fruit, FRUIT_COUNT};
use crate::rule_set::{lemma_rule_set_sizes, lemma_view_fields, rule_set_ok, RuleSet, RuleSetView};
use vstd::bytes::*;
use vstd::prelude::*;
use vstd::slice::slice_subrange;

verus! {

/// Bytes of one probability entry.
pub open spec fn prob_entry_bytes(e: (Fruit, u16)) -> Seq<u8> {
    spec_u32_to_le_bytes(fruit_index(e.0) as u32) + spec_u16_to_le_bytes(e.1)
}

/// Bytes of one reward entry.
pub open spec fn reward_entry_bytes(e: ((Fruit, u8), u16)) -> Seq<u8> {
    spec_u32_to_le_bytes(fruit_index(e.0.0) as u32) + seq![e.0.1] + spec_u16_to_le_bytes(e.1)
}

/// Bytes of a sequence of probability entries.
pub open spec fn prob_entries_bytes(s: Seq<(Fruit, u16)>) -> Seq<u8>
    decreases s.len(),
{
    if s.len() == 0 {
        Seq::empty()
    } else {
        prob_entries_bytes(s.drop_last()) + prob_entry_bytes(s.last())
    }
}

/// Bytes of a sequence of reward entries.
pub open spec fn reward_entries_bytes(t: Seq<((Fruit, u8), u16)>) -> Seq<u8>
    decreases t.len(),
{
    if t.len() == 0 {
        Seq::empty()
    } else {
        reward_entries_bytes(t.drop_last()) + reward_entry_bytes(t.last())
    }
}

/// The artifact of a rule set.
pub open spec fn encode_rule_set(rs: RuleSetView) -> Seq<u8> {
    spec_u64_to_le_bytes(rs.prob.len() as u64) + prob_entries_bytes(rs.prob)
        + spec_u64_to_le_bytes(rs.rewards.len() as u64) + reward_entries_bytes(rs.rewards) + seq![
        rs.wheel_count,
    ]
}

/// The symbol whose index four bytes hold, if any.
pub open spec fn decode_fruit(b: Seq<u8>) -> Option<Fruit> {
    let i = spec_u32_from_le_bytes(b);
    if i < FRUIT_COUNT {
        Some(fruit_at(i as int))
    } else {
        None
    }
}

/// The `i`-th probability entry of an area starting at `start`.
pub open spec fn prob_entry_at(b: Seq<u8>, start: int, i: int) -> Option<(Fruit, u16)> {
    let e = b.subrange(start + 6 * i, start + 6 * i + 6);
    match decode_fruit(e.subrange(0, 4)) {
        Some(f) => Some((f, spec_u16_from_le_bytes(e.subrange(4, 6)))),
        None => None,
    }
}

/// The `j`-th reward entry of an area starting at `start`.
pub open spec fn reward_entry_at(b: Seq<u8>, start: int, j: int) -> Option<((Fruit, u8), u16)> {
    let e = b.subrange(start + 7 * j, start + 7 * j + 7);
    match decode_fruit(e.subrange(0, 4)) {
        Some(f) => Some(((f, e[4]), spec_u16_from_le_bytes(e.subrange(5, 7)))),
        None => None,
    }
}

/// The rule set an artifact holds: `None` when the bytes are not laid out as
/// above, name an unknown symbol, or describe a rule set that breaks the
/// invariant.
pub open spec fn decode_rule_set(b: Seq<u8>) -> Option<RuleSetView> {
    if b.len() < 8 {
        None
    } else {
        let n1 = spec_u64_from_le_bytes(b.subrange(0, 8)) as int;
        let p_end = 8 + 6 * n1;
        if b.len() < p_end + 8 {
            None
        } else {
            let n2 = spec_u64_from_le_bytes(b.subrange(p_end, p_end + 8)) as int;
            let r_start = p_end + 8;
            if b.len() != r_start + 7 * n2 + 1 {
                None
            } else if exists|i: int| 0 <= i < n1 && (#[trigger] prob_entry_at(b, 8, i)) is None {
                None
            } else if exists|j: int|
                0 <= j < n2 && (#[trigger] reward_entry_at(b, r_start, j)) is None {
                None
            } else {
                let rs = RuleSetView {
                    prob: Seq::new(n1 as nat, |i: int| prob_entry_at(b, 8, i)->Some_0),
                    rewards: Seq::new(n2 as nat, |j: int| reward_entry_at(b, r_start, j)->Some_0),
                    wheel_count: b[b.len() - 1],
                };
                if rs.wf() {
                    Some(rs)
                } else {
                    None
                }
            }
        }
    }
}

proof fn lemma_entry_lengths()
    ensures
        forall|e: (Fruit, u16)| #[trigger] prob_entry_bytes(e).len() == 6,
        forall|e: ((Fruit, u8), u16)| #[trigger] reward_entry_bytes(e).len() == 7,
{
    lemma_auto_spec_u16_to_from_le_bytes();
    lemma_auto_spec_u32_to_from_le_bytes();
    assert forall|e: (Fruit, u16)| #[trigger] prob_entry_bytes(e).len() == 6 by {
        assert(spec_u32_to_le_bytes(fruit_index(e.0) as u32).len() == 4);
        assert(spec_u16_to_le_bytes(e.1).len() == 2);
    }
    assert forall|e: ((Fruit, u8), u16)| #[trigger] reward_entry_bytes(e).len() == 7 by {
        assert(spec_u32_to_le_bytes(fruit_index(e.0.0) as u32).len() == 4);
        assert(spec_u16_to_le_bytes(e.1).len() == 2);
    }
}

/// The entries of `s` lie one after another, six bytes each.
proof fn lemma_prob_entries_layout(s: Seq<(Fruit, u16)>)
    ensures
        prob_entries_bytes(s).len() == 6 * s.len(),
        forall|i: int|
            0 <= i < s.len() ==> prob_entries_bytes(s).subrange(6 * i, 6 * i + 6)
                == prob_entry_bytes(#[trigger] s[i]),
    decreases s.len(),
{
    lemma_entry_lengths();
    if s.len() > 0 {
        let p = s.drop_last();
        lemma_prob_entries_layout(p);
        assert forall|i: int| 0 <= i < s.len() implies prob_entries_bytes(s).subrange(
            6 * i,
            6 * i + 6,
        ) == prob_entry_bytes(#[trigger] s[i]) by {
            if i < s.len() - 1 {
                assert(prob_entries_bytes(s).subrange(6 * i, 6 * i + 6) =~= prob_entries_bytes(
                    p,
                ).subrange(6 * i, 6 * i + 6));
                assert(p[i] == s[i]);
            } else {
                assert(prob_entries_bytes(s).subrange(6 * i, 6 * i + 6) =~= prob_entry_bytes(
                    s.last(),
                ));
            }
        }
    }
}

/// The entries of `t` lie one after another, seven bytes each.
proof fn lemma_reward_entries_layout(t: Seq<((Fruit, u8), u16)>)
    ensures
        reward_entries_bytes(t).len() == 7 * t.len(),
        forall|j: int|
            0 <= j < t.len() ==> reward_entries_bytes(t).subrange(7 * j, 7 * j + 7)
                == reward_entry_bytes(#[trigger] t[j]),
    decreases t.len(),
{
    lemma_entry_lengths();
    if t.len() > 0 {
        let p = t.drop_last();
        lemma_reward_entries_layout(p);
        assert forall|j: int| 0 <= j < t.len() implies reward_entries_bytes(t).subrange(
            7 * j,
            7 * j + 7,
        ) == reward_entry_bytes(#[trigger] t[j]) by {
            if j < t.len() - 1 {
                assert(reward_entries_bytes(t).subrange(7 * j, 7 * j + 7)
                    =~= reward_entries_bytes(p).subrange(7 * j, 7 * j + 7));
                assert(p[j] == t[j]);
            } else {
                assert(reward_entries_bytes(t).subrange(7 * j, 7 * j + 7) =~= reward_entry_bytes(
                    t.last(),
                ));
            }
        }
    }
}

/// Entries whose bytes match consecutive six-byte blocks of `b` make up that area of `b`.
proof fn lemma_prob_entries_from_blocks(s: Seq<(Fruit, u16)>, b: Seq<u8>, start: int)
    requires
        0 <= start,
        start + 6 * s.len() <= b.len(),
        forall|i: int|
            0 <= i < s.len() ==> prob_entry_bytes(#[trigger] s[i]) == b.subrange(
                start + 6 * i,
                start + 6 * i + 6,
            ),
    ensures
        prob_entries_bytes(s) == b.subrange(start, start + 6 * s.len()),
    decreases s.len(),
{
    if s.len() == 0 {
        assert(b.subrange(start, start) =~= Seq::<u8>::empty());
    } else {
        let p = s.drop_last();
        assert forall|i: int| 0 <= i < p.len() implies prob_entry_bytes(#[trigger] p[i])
            == b.subrange(start + 6 * i, start + 6 * i + 6) by {
            assert(p[i] == s[i]);
        }
        lemma_prob_entries_from_blocks(p, b, start);
        let n = s.len() - 1;
        assert(prob_entry_bytes(s[n]) == b.subrange(start + 6 * n, start + 6 * n + 6));
        assert(b.subrange(start, start + 6 * n) + b.subrange(start + 6 * n, start + 6 * n + 6)
            =~= b.subrange(start, start + 6 * s.len()));
    }
}

/// Entries whose bytes match consecutive seven-byte blocks of `b` make up that area of `b`.
proof fn lemma_reward_entries_from_blocks(t: Seq<((Fruit, u8), u16)>, b: Seq<u8>, start: int)
    requires
        0 <= start,
        start + 7 * t.len() <= b.len(),
        forall|j: int|
            0 <= j < t.len() ==> reward_entry_bytes(#[trigger] t[j]) == b.subrange(
                start + 7 * j,
                start + 7 * j + 7,
            ),
    ensures
        reward_entries_bytes(t) == b.subrange(start, start + 7 * t.len()),
    decreases t.len(),
{
    if t.len() == 0 {
        assert(b.subrange(start, start) =~= Seq::<u8>::empty());
    } else {
        let p = t.drop_last();
        assert forall|j: int| 0 <= j < p.len() implies reward_entry_bytes(#[trigger] p[j])
            == b.subrange(start + 7 * j, start + 7 * j + 7) by {
            assert(p[j] == t[j]);
        }
        lemma_reward_entries_from_blocks(p, b, start);
        let n = t.len() - 1;
        assert(reward_entry_bytes(t[n]) == b.subrange(start + 7 * n, start + 7 * n + 7));
        assert(b.subrange(start, start + 7 * n) + b.subrange(start + 7 * n, start + 7 * n + 7)
            =~= b.subrange(start, start + 7 * t.len()));
    }
}

/// Round trip: decoding the artifact of a well-formed rule set gives back the
/// same rule set, with the same entries in the same order.
pub proof fn lemma_round_trip(rs: RuleSetView)
    requires
        rs.wf(),
    ensures
        decode_rule_set(encode_rule_set(rs)) == Some(rs),
{
    lemma_rule_set_sizes(rs);
    lemma_fruit_index_bijective();
    lemma_prob_entries_layout(rs.prob);
    lemma_reward_entries_layout(rs.rewards);
    lemma_auto_spec_u16_to_from_le_bytes();
    lemma_auto_spec_u32_to_from_le_bytes();
    lemma_auto_spec_u64_to_from_le_bytes();
    let b = encode_rule_set(rs);
    let n1 = rs.prob.len() as int;
    let n2 = rs.rewards.len() as int;
    let h1 = spec_u64_to_le_bytes(n1 as u64);
    let pb = prob_entries_bytes(rs.prob);
    let h2 = spec_u64_to_le_bytes(n2 as u64);
    let rb = reward_entries_bytes(rs.rewards);
    let p_end = 8 + 6 * n1;
    let r_start = p_end + 8;
    assert(b.len() == r_start + 7 * n2 + 1);
    assert(b.subrange(0, 8) =~= h1);
    assert(b.subrange(8, p_end) =~= pb);
    assert(b.subrange(p_end, p_end + 8) =~= h2);
    assert(b.subrange(r_start, r_start + 7 * n2) =~= rb);
    assert forall|i: int| 0 <= i < n1 implies #[trigger] prob_entry_at(b, 8, i) == Some(
        rs.prob[i],
    ) by {
        let e = b.subrange(8 + 6 * i, 8 + 6 * i + 6);
        assert(e =~= pb.subrange(6 * i, 6 * i + 6));
        assert(e.subrange(0, 4) =~= spec_u32_to_le_bytes(fruit_index(rs.prob[i].0) as u32));
        assert(e.subrange(4, 6) =~= spec_u16_to_le_bytes(rs.prob[i].1));
    }
    assert forall|j: int| 0 <= j < n2 implies #[trigger] reward_entry_at(b, r_start, j) == Some(
        rs.rewards[j],
    ) by {
        let e = b.subrange(r_start + 7 * j, r_start + 7 * j + 7);
        assert(e =~= rb.subrange(7 * j, 7 * j + 7));
        assert(e.subrange(0, 4) =~= spec_u32_to_le_bytes(fruit_index(rs.rewards[j].0.0) as u32));
        assert(e.subrange(5, 7) =~= spec_u16_to_le_bytes(rs.rewards[j].1));
        assert(e[4] == reward_entry_bytes(rs.rewards[j])[4]);
    }
    let d = RuleSetView {
        prob: Seq::new(n1 as nat, |i: int| prob_entry_at(b, 8, i)->Some_0),
        rewards: Seq::new(n2 as nat, |j: int| reward_entry_at(b, r_start, j)->Some_0),
        wheel_count: b[b.len() - 1],
    };
    assert(d.prob =~= rs.prob);
    assert(d.rewards =~= rs.rewards);
    assert(d == rs);
}

/// The artifact format is canonical: a decodable artifact is exactly the
/// encoding of the rule set it decodes to.
pub proof fn lemma_decode_canonical(b: Seq<u8>)
    requires
        decode_rule_set(b) is Some,
    ensures
        encode_rule_set(decode_rule_set(b)->Some_0) == b,
{
    lemma_fruit_index_bijective();
    lemma_entry_lengths();
    lemma_auto_spec_u16_to_from_le_bytes();
    lemma_auto_spec_u32_to_from_le_bytes();
    lemma_auto_spec_u64_to_from_le_bytes();
    let rs = decode_rule_set(b)->Some_0;
    let n1 = spec_u64_from_le_bytes(b.subrange(0, 8)) as int;
    let p_end = 8 + 6 * n1;
    let n2 = spec_u64_from_le_bytes(b.subrange(p_end, p_end + 8)) as int;
    let r_start = p_end + 8;
    assert forall|i: int| 0 <= i < rs.prob.len() implies prob_entry_bytes(#[trigger] rs.prob[i])
        == b.subrange(8 + 6 * i, 8 + 6 * i + 6) by {
        let e = b.subrange(8 + 6 * i, 8 + 6 * i + 6);
        assert(prob_entry_at(b, 8, i) is Some);
        let idx = spec_u32_from_le_bytes(e.subrange(0, 4));
        assert(fruit_index(fruit_at(idx as int)) == idx);
        assert(spec_u32_to_le_bytes(idx) == e.subrange(0, 4));
        assert(spec_u16_to_le_bytes(spec_u16_from_le_bytes(e.subrange(4, 6))) == e.subrange(4, 6));
        assert(prob_entry_bytes(rs.prob[i]) =~= e);
    }
    assert forall|j: int| 0 <= j < rs.rewards.len() implies reward_entry_bytes(
        #[trigger] rs.rewards[j],
    ) == b.subrange(r_start + 7 * j, r_start + 7 * j + 7) by {
        let e = b.subrange(r_start + 7 * j, r_start + 7 * j + 7);
        assert(reward_entry_at(b, r_start, j) is Some);
        let idx = spec_u32_from_le_bytes(e.subrange(0, 4));
        assert(fruit_index(fruit_at(idx as int)) == idx);
        assert(spec_u32_to_le_bytes(idx) == e.subrange(0, 4));
        assert(spec_u16_to_le_bytes(spec_u16_from_le_bytes(e.subrange(5, 7))) == e.subrange(5, 7));
        assert(reward_entry_bytes(rs.rewards[j]) =~= e);
    }
    lemma_prob_entries_from_blocks(rs.prob, b, 8);
    lemma_reward_entries_from_blocks(rs.rewards, b, r_start);
    assert(spec_u64_to_le_bytes(n1 as u64) == b.subrange(0, 8));
    assert(spec_u64_to_le_bytes(n2 as u64) == b.subrange(p_end, p_end + 8));
    assert(encode_rule_set(rs) =~= b);
}

/// Error of an artifact that does not decode to a well-formed rule set.
#[derive(Debug, Clone, Copy, PartialEq, Eq, Structural)]
pub enum DecodeError {
    /// The bytes are not the artifact of a well-formed rule set.
    Malformed,
}

impl RuleSet {
    /// The binary artifact of the rule set.
    pub fn serialize(&self) -> (r: Vec<u8>)
        ensures
            r@ == encode_rule_set(self@),
    {
        proof {
            lemma_view_fields(self);
        }
        let mut out = u64_to_le_bytes(self.prob.len() as u64);
        let ghost h1 = out@;
        let mut i: usize = 0;
        while i < self.prob.len()
            invariant
                i <= self.prob@.len(),
                h1 == spec_u64_to_le_bytes(self.prob@.len() as u64),
                out@ == h1 + prob_entries_bytes(self.prob@.take(i as int)),
            decreases self.prob@.len() - i,
        {
            let (f, w) = self.prob[i];
            let mut a = u32_to_le_bytes(f.index() as u32);
            let mut c = u16_to_le_bytes(w);
            out.append(&mut a);
            out.append(&mut c);
            proof {
                assert(self.prob@.take(i + 1).drop_last() =~= self.prob@.take(i as int));
                assert(out@ =~= h1 + prob_entries_bytes(self.prob@.take(i + 1)));
            }
            i = i + 1;
        }
        proof {
            assert(self.prob@.take(self.prob@.len() as int) =~= self.prob@);
        }
        let ghost before = out@;
        let mut h = u64_to_le_bytes(self.rewards.len() as u64);
        let ghost h2 = h@;
        out.append(&mut h);
        let mut j: usize = 0;
        while j < self.rewards.len()
            invariant
                j <= self.rewards@.len(),
                h2 == spec_u64_to_le_bytes(self.rewards@.len() as u64),
                out@ == before + h2 + reward_entries_bytes(self.rewards@.take(j as int)),
            decreases self.rewards@.len() - j,
        {
            let ((f, k), w) = self.rewards[j];
            let mut a = u32_to_le_bytes(f.index() as u32);
            let mut c = u16_to_le_bytes(w);
            out.append(&mut a);
            out.push(k);
            out.append(&mut c);
            proof {
                assert(self.rewards@.take(j + 1).drop_last() =~= self.rewards@.take(j as int));
                assert(out@ =~= before + h2 + reward_entries_bytes(self.rewards@.take(j + 1)));
            }
            j = j + 1;
        }
        proof {
            assert(self.rewards@.take(self.rewards@.len() as int) =~= self.rewards@);
        }
        out.push(self.wheel_count);
        proof {
            assert(out@ =~= encode_rule_set(self@));
        }
        out
    }

    /// Decodes an artifact; fails exactly when the bytes are not the artifact
    /// of a well-formed rule set.
    pub fn deserialize(v: &[u8]) -> (r: Result<RuleSet, DecodeError>)
        ensures
            r matches Ok(rs) ==> decode_rule_set(v@) == Some(rs@),
            r is Err <==> decode_rule_set(v@) is None,
    {
        let len = v.len();
        if len < 8 {
            return Err(DecodeError::Malformed);
        }
        let n1 = u64_from_le_bytes(slice_subrange(v, 0, 8));
        if (n1 as u128) * 6 + 16 > len as u128 {
            return Err(DecodeError::Malformed);
        }
        let n1 = n1 as usize;
        let p_end: usize = 8 + 6 * n1;
        let n2 = u64_from_le_bytes(slice_subrange(v, p_end, p_end + 8));
        let r_start: usize = p_end + 8;
        if (n2 as u128) * 7 + (r_start as u128) + 1 != len as u128 {
            return Err(DecodeError::Malformed);
        }
        let n2 = n2 as usize;
        let mut prob: Vec<(Fruit, u16)> = Vec::new();
        let mut i: usize = 0;
        while i < n1
            invariant
                v@.len() == len,
                n1 == spec_u64_from_le_bytes(v@.subrange(0, 8)),
                p_end == 8 + 6 * n1,
                r_start == p_end + 8,
                r_start + 7 * n2 + 1 == len,
                i <= n1,
                forall|k: int| 0 <= k < i ==> (#[trigger] prob_entry_at(v@, 8, k)) is Some,
                prob@ == Seq::new(i as nat, |k: int| prob_entry_at(v@, 8, k)->Some_0),
            decreases n1 - i,
        {
            let start: usize = 8 + 6 * i;
            let idx = u32_from_le_bytes(slice_subrange(v, start, start + 4));
            let w = u16_from_le_bytes(slice_subrange(v, start + 4, start + 6));
            proof {
                let e = v@.subrange(start as int, start + 6);
                assert(v@.subrange(start as int, start + 4) =~= e.subrange(0, 4));
                assert(v@.subrange(start + 4, start + 6) =~= e.subrange(4, 6));
            }
            if idx >= FRUIT_COUNT as u32 {
                assert(prob_entry_at(v@, 8, i as int) is None);
                return Err(DecodeError::Malformed);
            }
            let f = match Fruit::from_index(idx as u8) {
                Some(f) => f,
                None => {
                    return Err(DecodeError::Malformed);
                },
            };
            prob.push((f, w));
            proof {
                assert(prob@ =~= Seq::new((i + 1) as nat, |k: int| prob_entry_at(v@, 8, k)->Some_0));
            }
            i = i + 1;
        }
        let mut rewards: Vec<((Fruit, u8), u16)> = Vec::new();
        let mut j: usize = 0;
        while j < n2
            invariant
                v@.len() == len,
                n1 == spec_u64_from_le_bytes(v@.subrange(0, 8)),
                p_end == 8 + 6 * n1,
                r_start == p_end + 8,
                n2 == spec_u64_from_le_bytes(v@.subrange(p_end as int, p_end + 8)),
                r_start + 7 * n2 + 1 == len,
                j <= n2,
                forall|k: int| 0 <= k < j ==> (#[trigger] reward_entry_at(v@, r_start as int, k)) is Some,
                rewards@ == Seq::new(j as nat, |k: int| reward_entry_at(v@, r_start as int, k)->Some_0),
            decreases n2 - j,
        {
            let start: usize = r_start + 7 * j;
            let idx = u32_from_le_bytes(slice_subrange(v, start, start + 4));
            let count = v[start + 4];
            let w = u16_from_le_bytes(slice_subrange(v, start + 5, start + 7));
            proof {
                let e = v@.subrange(start as int, start + 7);
                assert(v@.subrange(start as int, start + 4) =~= e.subrange(0, 4));
                assert(v@.subrange(start + 5, start + 7) =~= e.subrange(5, 7));
                assert(e[4] == v@[start + 4]);
            }
            if idx >= FRUIT_COUNT as u32 {
                assert(reward_entry_at(v@, r_start as int, j as int) is None);
                return Err(DecodeError::Malformed);
            }
            let f = match Fruit::from_index(idx as u8) {
                Some(f) => f,
                None => {
                    return Err(DecodeError::Malformed);
                },
            };
            rewards.push(((f, count), w));
            proof {
                assert(rewards@ =~= Seq::new(
                    (j + 1) as nat,
                    |k: int| reward_entry_at(v@, r_start as int, k)->Some_0,
                ));
            }
            j = j + 1;
        }
        let wheel_count = v[len - 1];
        if !rule_set_ok(prob.as_slice(), rewards.as_slice(), wheel_count) {
            return Err(DecodeError::Malformed);
        }
        let rs = RuleSet { prob, rewards, wheel_count };
        proof {
            lemma_view_fields(&rs);
        }
        Ok(rs)
    }
}

} // verus!
