//! Completion of a quantized probability space so that its weights sum to
//! exactly `TOTAL_WEIGHT`.

use crate::random::random_index;
use crate::rule_set::TOTAL_WEIGHT;
use vstd::prelude::*;
use vstd::relations::sorted_by;

verus! {

broadcast use vstd::seq_lib::group_to_multiset_ensures, vstd::multiset::group_multiset_axioms;

/// Sum of a sequence of weights.
pub open spec fn seq_sum(s: Seq<u16>) -> int
    decreases s.len(),
{
    if s.len() == 0 {
        0
    } else {
        seq_sum(s.drop_last()) + s.last()
    }
}

/// Weights in descending order.
pub open spec fn descending(s: Seq<u16>) -> bool {
    sorted_by(s, |a: u16, b: u16| a >= b)
}

proof fn lemma_sum_update(s: Seq<u16>, i: int, x: u16)
    requires
        0 <= i < s.len(),
    ensures
        seq_sum(s.update(i, x)) == seq_sum(s) - s[i] + x,
    decreases s.len(),
{
    if i == s.len() - 1 {
        assert(s.update(i, x).drop_last() =~= s.drop_last());
    } else {
        assert(s.update(i, x).drop_last() =~= s.drop_last().update(i, x));
        lemma_sum_update(s.drop_last(), i, x);
    }
}

proof fn lemma_elem_le_sum(s: Seq<u16>, i: int)
    requires
        0 <= i < s.len(),
    ensures
        s[i] <= seq_sum(s),
    decreases s.len(),
{
    lemma_sum_nonneg(s.drop_last());
    if i < s.len() - 1 {
        lemma_elem_le_sum(s.drop_last(), i);
    }
}

proof fn lemma_sum_nonneg(s: Seq<u16>)
    ensures
        seq_sum(s) >= 0,
    decreases s.len(),
{
    if s.len() > 0 {
        lemma_sum_nonneg(s.drop_last());
    }
}

proof fn lemma_sum_prefix(s: Seq<u16>, i: int)
    requires
        0 <= i <= s.len(),
    ensures
        seq_sum(s.take(i)) <= seq_sum(s),
    decreases s.len(),
{
    if i < s.len() {
        assert(s.drop_last().take(i) =~= s.take(i));
        lemma_sum_prefix(s.drop_last(), i);
    } else {
        assert(s.take(i) =~= s);
    }
}

/// Sum of the weights.
fn sum_weights(v: &Vec<u16>) -> (r: u64)
    requires
        seq_sum(v@) <= TOTAL_WEIGHT,
    ensures
        r == seq_sum(v@),
{
    let mut total: u64 = 0;
    let mut i: usize = 0;
    while i < v.len()
        invariant
            i <= v@.len(),
            total == seq_sum(v@.take(i as int)),
            seq_sum(v@) <= TOTAL_WEIGHT,
        decreases v@.len() - i,
    {
        proof {
            assert(v@.take(i + 1).drop_last() =~= v@.take(i as int));
            lemma_sum_prefix(v@, i + 1);
        }
        total = total + v[i] as u64;
        i = i + 1;
    }
    proof {
        assert(v@.take(v@.len() as int) =~= v@);
    }
    total
}

/// Hands out the mass missing from `TOTAL_WEIGHT` one unit at a time, each to
/// a randomly chosen position.
fn distribute_remainder(weights: Vec<u16>) -> (r: Vec<u16>)
    requires
        weights@.len() > 0,
        seq_sum(weights@) <= TOTAL_WEIGHT,
    ensures
        r@.len() == weights@.len(),
        seq_sum(r@) == TOTAL_WEIGHT,
        forall|i: int| 0 <= i < r@.len() ==> #[trigger] r@[i] >= weights@[i],
{
    let total = sum_weights(&weights);
    let mut left: u16 = TOTAL_WEIGHT - total as u16;
    let mut w = weights;
    while left > 0
        invariant
            w@.len() == weights@.len() > 0,
            seq_sum(w@) + left == TOTAL_WEIGHT,
            forall|i: int| 0 <= i < w@.len() ==> #[trigger] w@[i] >= weights@[i],
        decreases left,
    {
        let i = random_index(w.len());
        proof {
            lemma_elem_le_sum(w@, i as int);
            lemma_sum_update(w@, i as int, (w@[i as int] + 1) as u16);
        }
        let x = w[i] + 1;
        w.set(i, x);
        left = left - 1;
    }
    w
}

/// Orders the weights from largest to smallest.
fn sort_descending(v: Vec<u16>) -> (r: Vec<u16>)
    ensures
        r@.to_multiset() == v@.to_multiset(),
        seq_sum(r@) == seq_sum(v@),
        descending(r@),
{
    let ghost m = v@.to_multiset();
    let ghost total = seq_sum(v@);
    let mut v = v;
    let n = v.len();
    let mut i: usize = 0;
    while i < n
        invariant
            v@.len() == n,
            v@.to_multiset() == m,
            seq_sum(v@) == total,
            i <= n,
            forall|a: int, b: int| 0 <= a < b < i ==> #[trigger] v@[a] >= #[trigger] v@[b],
            forall|a: int, b: int| 0 <= a < i <= b < n ==> #[trigger] v@[a] >= #[trigger] v@[b],
        decreases n - i,
    {
        let mut best: usize = i;
        let mut j: usize = i + 1;
        while j < n
            invariant
                v@.len() == n,
                i <= best < n,
                i < j <= n,
                forall|k: int| i <= k < j ==> v@[best as int] >= #[trigger] v@[k],
            decreases n - j,
        {
            if v[j] > v[best] {
                best = j;
            }
            j = j + 1;
        }
        let a = v[i];
        let b = v[best];
        let ghost old_v = v@;
        v.set(i, b);
        proof {
            lemma_sum_update(old_v, i as int, b);
        }
        let ghost mid = v@;
        v.set(best, a);
        proof {
            lemma_sum_update(mid, best as int, a);
            assert(old_v.update(i as int, b).to_multiset() == m.insert(b).remove(a));
            assert(v@.to_multiset() =~= m);
            assert forall|x: int, y: int| 0 <= x < i + 1 <= y < n implies #[trigger] v@[x]
                >= #[trigger] v@[y] by {
                if x < i {
                    assert(old_v[x] >= old_v[y]);
                    assert(old_v[x] >= old_v[i as int]);
                } else {
                    assert(old_v[best as int] >= old_v[y]);
                    assert(old_v[best as int] >= old_v[i as int]);
                }
            }
            assert forall|x: int, y: int| 0 <= x < y < i + 1 implies #[trigger] v@[x]
                >= #[trigger] v@[y] by {
                if y == i {
                    assert(old_v[x] >= old_v[best as int]);
                } else {
                    assert(old_v[x] >= old_v[y]);
                }
            }
        }
        i = i + 1;
    }
    v
}

/// Completes quantized weights into a probability space: the missing mass is
/// handed out one unit at a time to randomly chosen positions, and the result
/// is ordered from largest to smallest weight. Whatever positions are drawn,
/// the weights sum to exactly `TOTAL_WEIGHT` and are a reordering of weights
/// each at least the quantized one at its position.
pub fn complete_prob_space(quantized: Vec<u16>) -> (r: Vec<u16>)
    requires
        quantized@.len() > 0,
        seq_sum(quantized@) <= TOTAL_WEIGHT,
    ensures
        r@.len() == quantized@.len(),
        seq_sum(r@) == TOTAL_WEIGHT,
        descending(r@),
        exists|filled: Seq<u16>|
            #![trigger filled.to_multiset()]
            {
                &&& filled.len() == quantized@.len()
                &&& forall|i: int| 0 <= i < filled.len() ==> #[trigger] filled[i] >= quantized@[i]
                &&& r@.to_multiset() == filled.to_multiset()
            },
{
    let ghost q = quantized@;
    let filled = distribute_remainder(quantized);
    let r = sort_descending(filled);
    proof {
        assert(r@.to_multiset().len() == r@.len());
        assert(filled@.len() == q.len());
        assert(forall|i: int| 0 <= i < filled@.len() ==> #[trigger] filled@[i] >= q[i]);
    }
    r
}

} // verus!
