//! The rule set: probability space, reward table and reel count, with the
//! deterministic resolution of a spin from a seed.

use crate::fruit::{fruit_index, lemma_fruit_index_bijective, Fruit};
use crate::random::random_u16;
use vstd::multiset::Multiset;
use vstd::prelude::*;
use vstd::relations::{sorted_by, total_ordering};

verus! {

broadcast use vstd::seq_lib::group_to_multiset_ensures, vstd::multiset::group_multiset_axioms;

/// Total probability mass of a probability space.
pub const TOTAL_WEIGHT: u16 = 65535;

/// Largest reward a table entry or a spin may pay.
pub const MAX_REWARD: u16 = 55666;

/// Default number of reels.
pub const DEFAULT_WHEEL_COUNT: u8 = 3;

/// Immutable aggregate of a probability space, a reward table and the number
/// of reels.
#[derive(Debug, Clone, PartialEq, Eq)]
pub struct RuleSet {
    pub(crate) prob: Vec<(Fruit, u16)>,
    pub(crate) rewards: Vec<((Fruit, u8), u16)>,
    pub(crate) wheel_count: u8,
}

/// Mathematical model of a rule set.
pub struct RuleSetView {
    /// Weight of each symbol, in iteration order.
    pub prob: Seq<(Fruit, u16)>,
    /// Reward of each (symbol, hit count) pair; absent pairs pay nothing.
    pub rewards: Seq<((Fruit, u8), u16)>,
    /// Number of reels.
    pub wheel_count: u8,
}

impl View for RuleSet {
    type V = RuleSetView;

    closed spec fn view(&self) -> RuleSetView {
        RuleSetView { prob: self.prob@, rewards: self.rewards@, wheel_count: self.wheel_count }
    }
}

/// The model of a rule set is made of its fields.
pub(crate) proof fn lemma_view_fields(rs: &RuleSet)
    ensures
        rs@.prob == rs.prob@,
        rs@.rewards == rs.rewards@,
        rs@.wheel_count == rs.wheel_count,
{
}

/// A strictly increasing sequence of integers in `[0, hi)` has at most `hi` elements.
pub proof fn lemma_increasing_len(s: Seq<int>, hi: int)
    requires
        0 <= hi,
        forall|i: int, j: int| 0 <= i < j < s.len() ==> #[trigger] s[i] < #[trigger] s[j],
        forall|i: int| 0 <= i < s.len() ==> 0 <= #[trigger] s[i] < hi,
    ensures
        s.len() <= hi,
        s.len() > 0 ==> s.len() <= s.last() + 1,
    decreases s.len(),
{
    if s.len() > 0 {
        let p = s.drop_last();
        lemma_increasing_len(p, hi);
        if p.len() > 0 {
            assert(p.last() == s[s.len() - 2]);
            assert(s[s.len() - 2] < s.last());
        }
        assert(0 <= s[s.len() - 1] < hi);
        assert(s.last() == s[s.len() - 1]);
    }
}

/// A well-formed rule set has at most one weight per symbol and one reward
/// per (symbol, hit count) pair.
pub proof fn lemma_rule_set_sizes(rs: RuleSetView)
    requires
        rs.wf(),
    ensures
        rs.prob.len() <= crate::fruit::FRUIT_COUNT,
        rs.rewards.len() <= crate::fruit::FRUIT_COUNT * 256,
{
    crate::fruit::lemma_fruit_index_bijective();
    let a = rs.prob.map_values(|e: (Fruit, u16)| fruit_index(e.0));
    assert forall|i: int, j: int| 0 <= i < j < a.len() implies #[trigger] a[i] < #[trigger] a[j] by {
        assert(fruit_index(rs.prob[i].0) < fruit_index(rs.prob[j].0));
    }
    lemma_increasing_len(a, crate::fruit::FRUIT_COUNT as int);
    let b = rs.rewards.map_values(|e: ((Fruit, u8), u16)| reward_key_code(e.0));
    assert forall|i: int, j: int| 0 <= i < j < b.len() implies #[trigger] b[i] < #[trigger] b[j] by {
        assert(reward_key_code(rs.rewards[i].0) < reward_key_code(rs.rewards[j].0));
    }
    lemma_increasing_len(b, crate::fruit::FRUIT_COUNT * 256);
}

/// Sum of the weights of a probability space.
pub open spec fn weight_sum(s: Seq<(Fruit, u16)>) -> int
    decreases s.len(),
{
    if s.len() == 0 {
        0
    } else {
        weight_sum(s.drop_last()) + s.last().1
    }
}

/// A prefix of a probability space weighs no more than the whole.
pub proof fn lemma_weight_sum_prefix(s: Seq<(Fruit, u16)>, i: int)
    requires
        0 <= i <= s.len(),
    ensures
        weight_sum(s.take(i)) <= weight_sum(s),
    decreases s.len(),
{
    if i < s.len() {
        assert(s.drop_last().take(i) =~= s.take(i));
        lemma_weight_sum_prefix(s.drop_last(), i);
    } else {
        assert(s.take(i) =~= s);
    }
}

/// The symbols of a probability space are strictly increasing in enumeration order.
pub open spec fn symbols_increasing(s: Seq<(Fruit, u16)>) -> bool {
    forall|i: int, j: int|
        0 <= i < j < s.len() ==> fruit_index(#[trigger] s[i].0) < fruit_index(#[trigger] s[j].0)
}

/// A well-formed probability space: at least three symbols, each once and in
/// enumeration order, with weights summing to exactly `TOTAL_WEIGHT`.
pub open spec fn prob_space_wf(s: Seq<(Fruit, u16)>) -> bool {
    &&& s.len() >= 3
    &&& symbols_increasing(s)
    &&& weight_sum(s) == TOTAL_WEIGHT
}

/// Order key of a reward table entry: by symbol, then by hit count.
pub open spec fn reward_key_code(k: (Fruit, u8)) -> int {
    fruit_index(k.0) * 256 + k.1 as int
}

/// A well-formed reward table: keys strictly increasing, every hit count in
/// `1..=wheel_count`, every reward in `1..=MAX_REWARD` (zero rewards are absent).
pub open spec fn reward_table_wf(t: Seq<((Fruit, u8), u16)>, wheel_count: int) -> bool {
    &&& forall|i: int, j: int|
        0 <= i < j < t.len() ==> reward_key_code(#[trigger] t[i].0) < reward_key_code(
            #[trigger] t[j].0,
        )
    &&& forall|i: int|
        0 <= i < t.len() ==> 1 <= (#[trigger] t[i]).0.1 <= wheel_count && 1 <= t[i].1
            <= MAX_REWARD
}

impl RuleSetView {
    /// The rule set's invariant.
    pub open spec fn wf(self) -> bool {
        &&& prob_space_wf(self.prob)
        &&& reward_table_wf(self.rewards, self.wheel_count as int)
        &&& self.wheel_count >= 2
    }
}

impl RuleSet {
    /// The rule set's invariant, established by every constructor.
    pub open spec fn wf(&self) -> bool {
        self@.wf()
    }
}

/// Weighted sampling by cumulative threshold: the first symbol whose weight is
/// at least what is left of `v`, if any.
pub open spec fn pick(s: Seq<(Fruit, u16)>, v: int) -> Option<Fruit>
    decreases s.len(),
{
    if s.len() == 0 {
        None
    } else if v <= s[0].1 {
        Some(s[0].0)
    } else {
        pick(s.drop_first(), v - s[0].1)
    }
}

/// The symbol a reel shows for the seed value `v`; the first symbol when the
/// thresholds are exhausted.
pub open spec fn reel_symbol(s: Seq<(Fruit, u16)>, v: int) -> Fruit
    recommends
        s.len() > 0,
{
    match pick(s, v) {
        Some(f) => f,
        None => s[0].0,
    }
}

/// The symbols of all reels, one per seed element, in reel order.
pub open spec fn spin_reels(s: Seq<(Fruit, u16)>, seed: Seq<u16>) -> Seq<Fruit> {
    seed.map_values(|v: u16| reel_symbol(s, v as int))
}

/// Sum of the rewards of the table entries whose (symbol, hit count) matches
/// the symbols shown.
pub open spec fn table_reward(t: Seq<((Fruit, u8), u16)>, shown: Multiset<Fruit>) -> int
    decreases t.len(),
{
    if t.len() == 0 {
        0
    } else {
        table_reward(t.drop_last(), shown) + if shown.count(t.last().0.0) == t.last().0.1 {
            t.last().1 as int
        } else {
            0
        }
    }
}

/// The reward paid for the symbols shown: the table reward, clamped to `MAX_REWARD`.
pub open spec fn spin_reward(t: Seq<((Fruit, u8), u16)>, shown: Multiset<Fruit>) -> int {
    if table_reward(t, shown) > MAX_REWARD {
        MAX_REWARD as int
    } else {
        table_reward(t, shown)
    }
}

/// `a` comes no later than `b` when arranging the symbols shown: more hits
/// first, ties in enumeration order.
pub open spec fn hit_le(shown: Multiset<Fruit>, a: Fruit, b: Fruit) -> bool {
    ||| shown.count(a) > shown.count(b)
    ||| (shown.count(a) == shown.count(b) && fruit_index(a) <= fruit_index(b))
}

/// `hit_le` as a relation.
pub open spec fn hit_order(shown: Multiset<Fruit>) -> spec_fn(Fruit, Fruit) -> bool {
    |a: Fruit, b: Fruit| hit_le(shown, a, b)
}

/// The arrangement order is a total order.
pub proof fn lemma_hit_order_total(shown: Multiset<Fruit>)
    ensures
        total_ordering(hit_order(shown)),
{
    lemma_fruit_index_bijective();
    assert forall|x: Fruit, y: Fruit|
        #[trigger] hit_order(shown)(x, y) && #[trigger] hit_order(shown)(y, x) implies x == y by {
        assert(fruit_index(x) == fruit_index(y));
        assert(crate::fruit::fruit_at(fruit_index(x)) == x);
    }
}

/// Outcome of a spin: the reels resolved from `seed`, arranged by descending
/// hit count (ties in enumeration order), and the reward they pay.
pub open spec fn is_spin_outcome(
    rs: RuleSetView,
    seed: Seq<u16>,
    symbols: Seq<Fruit>,
    reward: int,
) -> bool {
    let shown = spin_reels(rs.prob, seed).to_multiset();
    &&& symbols.to_multiset() == shown
    &&& sorted_by(symbols, hit_order(shown))
    &&& reward == spin_reward(rs.rewards, shown)
}

/// Resolution is a function of the rule set and the seed: two outcomes of the
/// same rule set and seed are identical.
pub proof fn lemma_spin_outcome_unique(
    rs: RuleSetView,
    seed: Seq<u16>,
    symbols1: Seq<Fruit>,
    reward1: int,
    symbols2: Seq<Fruit>,
    reward2: int,
)
    requires
        is_spin_outcome(rs, seed, symbols1, reward1),
        is_spin_outcome(rs, seed, symbols2, reward2),
    ensures
        symbols1 == symbols2,
        reward1 == reward2,
{
    let shown = spin_reels(rs.prob, seed).to_multiset();
    lemma_hit_order_total(shown);
    vstd::seq_lib::lemma_sorted_unique(symbols1, symbols2, hit_order(shown));
}

/// The entries of a reward table that pay something, in their order.
pub open spec fn paying_entries(t: Seq<((Fruit, u8), u16)>) -> Seq<((Fruit, u8), u16)>
    decreases t.len(),
{
    if t.len() == 0 {
        t
    } else if t.last().1 > 0 {
        paying_entries(t.drop_last()).push(t.last())
    } else {
        paying_entries(t.drop_last())
    }
}

/// Removes the entries whose reward is zero: absence means no payout.
pub fn drop_zero_rewards(entries: &Vec<((Fruit, u8), u16)>) -> (r: Vec<((Fruit, u8), u16)>)
    ensures
        r@ == paying_entries(entries@),
{
    let mut r: Vec<((Fruit, u8), u16)> = Vec::new();
    let mut i: usize = 0;
    while i < entries.len()
        invariant
            i <= entries@.len(),
            r@ == paying_entries(entries@.take(i as int)),
        decreases entries@.len() - i,
    {
        proof {
            assert(entries@.take(i + 1).drop_last() =~= entries@.take(i as int));
        }
        if entries[i].1 > 0 {
            r.push(entries[i]);
        }
        i = i + 1;
    }
    proof {
        assert(entries@.take(entries@.len() as int) =~= entries@);
    }
    r
}

/// In a well-formed rule set no reward entry counts more hits than there are
/// reels, and every resolved outcome shows exactly one symbol per reel.
pub proof fn lemma_hits_within_reels(rs: RuleSetView, seed: Seq<u16>, symbols: Seq<Fruit>, reward: int)
    requires
        rs.wf(),
        seed.len() == rs.wheel_count,
        is_spin_outcome(rs, seed, symbols, reward),
    ensures
        forall|i: int| 0 <= i < rs.rewards.len() ==> (#[trigger] rs.rewards[i]).0.1 <= rs.wheel_count,
        symbols.len() == rs.wheel_count,
{
    assert(symbols.to_multiset().len() == symbols.len());
    assert(spin_reels(rs.prob, seed).to_multiset().len() == spin_reels(rs.prob, seed).len());
}

/// Reward of the spin resolved from `seed`.
pub open spec fn seed_reward(rs: RuleSetView, seed: Seq<u16>) -> int {
    spin_reward(rs.rewards, spin_reels(rs.prob, seed).to_multiset())
}

/// Sum of the rewards of the spins resolved from each of `seeds`.
pub open spec fn total_reward(rs: RuleSetView, seeds: Seq<Seq<u16>>) -> int
    decreases seeds.len(),
{
    if seeds.len() == 0 {
        0
    } else {
        total_reward(rs, seeds.drop_last()) + seed_reward(rs, seeds.last())
    }
}

/// Symbol selected for one reel: walks the space in iteration order, selecting
/// the first symbol whose weight is at least what is left of `rand_val`.
fn get_random_index_per_density(rand_val: u16, prob: &[(Fruit, u16)]) -> (r: Fruit)
    requires
        prob@.len() > 0,
    ensures
        r == reel_symbol(prob@, rand_val as int),
{
    let ghost v0 = rand_val as int;
    let mut left: u16 = rand_val;
    let mut i: usize = 0;
    proof {
        assert(prob@.subrange(0, prob@.len() as int) =~= prob@);
    }
    while i < prob.len()
        invariant
            0 <= i <= prob@.len(),
            prob@.len() > 0,
            v0 == rand_val as int,
            pick(prob@, v0) == pick(prob@.subrange(i as int, prob@.len() as int), left as int),
        decreases prob@.len() - i,
    {
        let (f, w) = prob[i];
        assert(prob@.subrange(i as int, prob@.len() as int)[0] == prob@[i as int]);
        if left <= w {
            assert(pick(prob@.subrange(i as int, prob@.len() as int), left as int) == Some(f));
            return f;
        }
        proof {
            assert(prob@.subrange(i as int, prob@.len() as int).drop_first() =~= prob@.subrange(
                i + 1,
                prob@.len() as int,
            ));
        }
        left = left - w;
        i = i + 1;
    }
    prob[0].0
}

/// Number of reels showing `f`.
fn count_hits(reels: &Vec<Fruit>, f: Fruit) -> (r: u8)
    requires
        reels@.len() <= 255,
    ensures
        r == reels@.to_multiset().count(f),
{
    let mut c: u8 = 0;
    let mut i: usize = 0;
    while i < reels.len()
        invariant
            i <= reels@.len() <= 255,
            c == reels@.take(i as int).to_multiset().count(f),
            c <= i,
        decreases reels@.len() - i,
    {
        proof {
            assert(reels@.take(i + 1) =~= reels@.take(i as int).push(reels@[i as int]));
        }
        if reels[i] == f {
            c = c + 1;
        }
        i = i + 1;
    }
    proof {
        assert(reels@.take(reels@.len() as int) =~= reels@);
    }
    c
}

/// Whether `a` comes no later than `b` when arranging `reels`.
fn hit_precedes(reels: &Vec<Fruit>, a: Fruit, b: Fruit) -> (r: bool)
    requires
        reels@.len() <= 255,
    ensures
        r == hit_le(reels@.to_multiset(), a, b),
{
    let ca = count_hits(reels, a);
    let cb = count_hits(reels, b);
    ca > cb || (ca == cb && a.index() <= b.index())
}

/// Arranges the reels by descending hit count, ties in enumeration order.
fn arrange_by_hits(reels: Vec<Fruit>) -> (r: Vec<Fruit>)
    requires
        reels@.len() <= 255,
    ensures
        r@.to_multiset() == reels@.to_multiset(),
        sorted_by(r@, hit_order(reels@.to_multiset())),
{
    let ghost m = reels@.to_multiset();
    let mut v = reels;
    let n = v.len();
    let mut i: usize = 0;
    while i < n
        invariant
            v@.len() == n <= 255,
            v@.to_multiset() == m,
            i <= n,
            forall|a: int, b: int| 0 <= a < b < i ==> #[trigger] hit_le(m, v@[a], v@[b]),
            forall|a: int, b: int| 0 <= a < i <= b < n ==> #[trigger] hit_le(m, v@[a], v@[b]),
        decreases n - i,
    {
        let mut best: usize = i;
        let mut j: usize = i + 1;
        while j < n
            invariant
                v@.len() == n <= 255,
                v@.to_multiset() == m,
                i <= best < n,
                i < j <= n,
                forall|k: int| i <= k < j ==> #[trigger] hit_le(m, v@[best as int], v@[k]),
            decreases n - j,
        {
            if !hit_precedes(&v, v[best], v[j]) {
                proof {
                    assert forall|k: int| i <= k < j + 1 implies #[trigger] hit_le(
                        m,
                        v@[j as int],
                        v@[k],
                    ) by {
                        if k < j {
                            assert(hit_le(m, v@[best as int], v@[k]));
                        }
                    }
                }
                best = j;
            }
            j = j + 1;
        }
        let a = v[i];
        let b = v[best];
        let ghost old_v = v@;
        v.set(i, b);
        v.set(best, a);
        proof {
            assert(old_v.update(i as int, b).update(best as int, a) == v@);
            assert(old_v.update(i as int, b).to_multiset() == m.insert(b).remove(a));
            assert(v@.to_multiset() =~= m);
            assert forall|x: int, y: int| 0 <= x < i + 1 <= y < n implies #[trigger] hit_le(
                m,
                v@[x],
                v@[y],
            ) by {
                if x < i {
                    if y == best {
                        assert(hit_le(m, old_v[x], old_v[i as int]));
                    } else {
                        assert(hit_le(m, old_v[x], old_v[y]));
                    }
                } else {
                    if y == best {
                        assert(hit_le(m, old_v[best as int], old_v[i as int]));
                    } else {
                        assert(hit_le(m, old_v[best as int], old_v[y]));
                    }
                }
            }
            assert forall|x: int, y: int| 0 <= x < y < i + 1 implies #[trigger] hit_le(
                m,
                v@[x],
                v@[y],
            ) by {
                if y == i {
                    assert(hit_le(m, old_v[x], old_v[best as int]));
                } else {
                    assert(hit_le(m, old_v[x], old_v[y]));
                }
            }
        }
        i = i + 1;
    }
    v
}

/// Reward paid for the symbols on `reels` under the table `rewards`.
fn outcome_reward(rewards: &[((Fruit, u8), u16)], reels: &Vec<Fruit>) -> (r: u16)
    requires
        reels@.len() <= 255,
    ensures
        r == spin_reward(rewards@, reels@.to_multiset()),
{
    let ghost m = reels@.to_multiset();
    let mut total: u32 = 0;
    let mut i: usize = 0;
    while i < rewards.len()
        invariant
            i <= rewards@.len(),
            reels@.len() <= 255,
            m == reels@.to_multiset(),
            total == spin_reward(rewards@.take(i as int), m),
        decreases rewards@.len() - i,
    {
        let ((f, c), w) = rewards[i];
        let hits = count_hits(reels, f);
        proof {
            assert(rewards@.take(i + 1).drop_last() =~= rewards@.take(i as int));
        }
        if hits == c {
            if total + w as u32 > MAX_REWARD as u32 {
                total = MAX_REWARD as u32;
            } else {
                total = total + w as u32;
            }
        }
        i = i + 1;
    }
    proof {
        assert(rewards@.take(rewards@.len() as int) =~= rewards@);
    }
    total as u16
}

/// Whether `prob` is a well-formed probability space.
fn prob_space_ok(prob: &[(Fruit, u16)]) -> (r: bool)
    ensures
        r == prob_space_wf(prob@),
{
    if prob.len() < 3 {
        return false;
    }
    let mut total: u32 = 0;
    let mut i: usize = 0;
    while i < prob.len()
        invariant
            3 <= prob@.len(),
            i <= prob@.len(),
            total == weight_sum(prob@.take(i as int)),
            total <= TOTAL_WEIGHT,
            forall|a: int, b: int|
                0 <= a < b < i ==> fruit_index(#[trigger] prob@[a].0) < fruit_index(
                    #[trigger] prob@[b].0,
                ),
        decreases prob@.len() - i,
    {
        if i > 0 && prob[i - 1].0.index() >= prob[i].0.index() {
            return false;
        }
        proof {
            assert(prob@.take(i + 1).drop_last() =~= prob@.take(i as int));
            assert forall|a: int, b: int| 0 <= a < b < i + 1 implies fruit_index(
                #[trigger] prob@[a].0,
            ) < fruit_index(#[trigger] prob@[b].0) by {
                if b == i && a < i - 1 {
                    assert(fruit_index(prob@[a].0) < fruit_index(prob@[i - 1].0));
                }
            }
        }
        total = total + prob[i].1 as u32;
        if total > TOTAL_WEIGHT as u32 {
            proof {
                lemma_weight_sum_prefix(prob@, i + 1);
            }
            return false;
        }
        i = i + 1;
    }
    proof {
        assert(prob@.take(prob@.len() as int) =~= prob@);
    }
    total == TOTAL_WEIGHT as u32
}

/// Whether `rewards` is a well-formed reward table for `wheel_count` reels.
fn reward_table_ok(rewards: &[((Fruit, u8), u16)], wheel_count: u8) -> (r: bool)
    ensures
        r == reward_table_wf(rewards@, wheel_count as int),
{
    let mut i: usize = 0;
    while i < rewards.len()
        invariant
            i <= rewards@.len(),
            forall|a: int, b: int|
                0 <= a < b < i ==> reward_key_code(#[trigger] rewards@[a].0) < reward_key_code(
                    #[trigger] rewards@[b].0,
                ),
            forall|a: int|
                0 <= a < i ==> 1 <= (#[trigger] rewards@[a]).0.1 <= wheel_count && 1
                    <= rewards@[a].1 <= MAX_REWARD,
        decreases rewards@.len() - i,
    {
        let ((f, c), w) = rewards[i];
        if c < 1 || c > wheel_count || w < 1 || w > MAX_REWARD {
            return false;
        }
        if i > 0 {
            let ((pf, pc), _) = rewards[i - 1];
            let prev_code = pf.index() as u32 * 256 + pc as u32;
            let code = f.index() as u32 * 256 + c as u32;
            if prev_code >= code {
                return false;
            }
        }
        proof {
            assert forall|a: int, b: int| 0 <= a < b < i + 1 implies reward_key_code(
                #[trigger] rewards@[a].0,
            ) < reward_key_code(#[trigger] rewards@[b].0) by {
                if b == i && a < i - 1 {
                    assert(reward_key_code(rewards@[a].0) < reward_key_code(rewards@[i - 1].0));
                }
            }
        }
        i = i + 1;
    }
    true
}

/// Whether the parts form a well-formed rule set.
pub(crate) fn rule_set_ok(
    prob: &[(Fruit, u16)],
    rewards: &[((Fruit, u8), u16)],
    wheel_count: u8,
) -> (r: bool)
    ensures
        r == (RuleSetView { prob: prob@, rewards: rewards@, wheel_count }).wf(),
{
    wheel_count >= 2 && prob_space_ok(prob) && reward_table_ok(rewards, wheel_count)
}

impl RuleSet {
    /// Builds a rule set from its parts; `None` when they break the invariant.
    pub fn new(prob: Vec<(Fruit, u16)>, rewards: Vec<((Fruit, u8), u16)>, wheel_count: u8) -> (r:
        Option<RuleSet>)
        ensures
            r matches Some(rs) ==> rs@ == (RuleSetView { prob: prob@, rewards: rewards@, wheel_count }),
            r is Some <==> (RuleSetView { prob: prob@, rewards: rewards@, wheel_count }).wf(),
    {
        if rule_set_ok(prob.as_slice(), rewards.as_slice(), wheel_count) {
            Some(RuleSet { prob, rewards, wheel_count })
        } else {
            None
        }
    }

    /// Resolves a spin: one symbol per seed element, then the symbols arranged
    /// by descending hit count and the reward they pay.
    pub fn play_random_from_seed(&self, random_seed: &[u16]) -> (r: (Vec<Fruit>, u16))
        requires
            self.wf(),
            random_seed@.len() == self@.wheel_count,
        ensures
            r.0@.len() == self@.wheel_count,
            is_spin_outcome(self@, random_seed@, r.0@, r.1 as int),
    {
        let mut result: Vec<Fruit> = Vec::new();
        let mut i: usize = 0;
        while i < random_seed.len()
            invariant
                self.wf(),
                i <= random_seed@.len() <= 255,
                result@ == spin_reels(self@.prob, random_seed@.take(i as int)),
            decreases random_seed@.len() - i,
        {
            let x = get_random_index_per_density(random_seed[i], self.prob.as_slice());
            result.push(x);
            proof {
                assert(result@ =~= spin_reels(self@.prob, random_seed@.take(i + 1)));
            }
            i = i + 1;
        }
        proof {
            assert(random_seed@.take(random_seed@.len() as int) =~= random_seed@);
        }
        let reward = outcome_reward(self.rewards.as_slice(), &result);
        let arranged = arrange_by_hits(result);
        proof {
            assert(arranged@.to_multiset().len() == arranged@.len());
            assert(result@.to_multiset().len() == result@.len());
        }
        (arranged, reward)
    }
}

impl RuleSet {
    /// Weight of each symbol, in iteration order.
    pub fn prob(&self) -> (r: Vec<(Fruit, u16)>)
        ensures
            r@ == self@.prob,
    {
        let mut r: Vec<(Fruit, u16)> = Vec::new();
        let mut i: usize = 0;
        while i < self.prob.len()
            invariant
                i <= self.prob@.len(),
                r@ == self.prob@.take(i as int),
            decreases self.prob@.len() - i,
        {
            r.push(self.prob[i]);
            proof {
                assert(r@ =~= self.prob@.take(i + 1));
            }
            i = i + 1;
        }
        proof {
            assert(self.prob@.take(self.prob@.len() as int) =~= self.prob@);
        }
        r
    }

    /// Reward of each (symbol, hit count) pair that pays, in key order.
    pub fn rewards(&self) -> (r: Vec<((Fruit, u8), u16)>)
        ensures
            r@ == self@.rewards,
    {
        let mut r: Vec<((Fruit, u8), u16)> = Vec::new();
        let mut i: usize = 0;
        while i < self.rewards.len()
            invariant
                i <= self.rewards@.len(),
                r@ == self.rewards@.take(i as int),
            decreases self.rewards@.len() - i,
        {
            r.push(self.rewards[i]);
            proof {
                assert(r@ =~= self.rewards@.take(i + 1));
            }
            i = i + 1;
        }
        proof {
            assert(self.rewards@.take(self.rewards@.len() as int) =~= self.rewards@);
        }
        r
    }

    /// Number of reels.
    pub fn wheel_count(&self) -> (r: u8)
        ensures
            r == self@.wheel_count,
    {
        self.wheel_count
    }

    /// Resolves a spin from a freshly drawn seed.
    pub fn play_random(&self) -> (r: (Vec<Fruit>, u16))
        requires
            self.wf(),
        ensures
            r.0@.len() == self@.wheel_count,
            exists|seed: Seq<u16>|
                seed.len() == self@.wheel_count && is_spin_outcome(self@, seed, r.0@, r.1 as int),
    {
        let mut seed: Vec<u16> = Vec::new();
        while seed.len() < self.wheel_count as usize
            invariant
                seed@.len() <= self@.wheel_count,
                self@.wheel_count == self.wheel_count,
            decreases self@.wheel_count - seed@.len(),
        {
            seed.push(random_u16());
        }
        self.play_random_from_seed(seed.as_slice())
    }

    /// Sum of the rewards of `count` spins, each resolved from a freshly drawn
    /// seed; divided by `count`, the empirical return.
    pub fn play_monte_carlo_total(&self, count: u32) -> (r: u64)
        requires
            self.wf(),
        ensures
            r <= count * MAX_REWARD,
            exists|seeds: Seq<Seq<u16>>|
                {
                    &&& seeds.len() == count
                    &&& forall|k: int|
                        0 <= k < seeds.len() ==> (#[trigger] seeds[k]).len() == self@.wheel_count
                    &&& r == total_reward(self@, seeds)
                },
    {
        let mut total: u64 = 0;
        let mut i: u32 = 0;
        let ghost mut seeds: Seq<Seq<u16>> = Seq::empty();
        while i < count
            invariant
                self.wf(),
                i <= count,
                seeds.len() == i,
                forall|k: int| 0 <= k < seeds.len() ==> (#[trigger] seeds[k]).len() == self@.wheel_count,
                total == total_reward(self@, seeds),
                total <= i * MAX_REWARD,
            decreases count - i,
        {
            let (symbols, reward) = self.play_random();
            let ghost seed = choose|seed: Seq<u16>|
                seed.len() == self@.wheel_count && is_spin_outcome(
                    self@,
                    seed,
                    symbols@,
                    reward as int,
                );
            proof {
                let old_seeds = seeds;
                seeds = seeds.push(seed);
                assert(seeds.drop_last() =~= old_seeds);
            }
            total = total + reward as u64;
            i = i + 1;
        }
        total
    }
}

} // verus!
