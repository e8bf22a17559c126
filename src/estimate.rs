//! Exact expected return of a rule set, as a fraction with the fixed-point
//! denominator `TOTAL_WEIGHT ^ wheel_count`.

use crate::fruit::Fruit;
use crate::rule_set::{lemma_rule_set_sizes, lemma_view_fields, RuleSet, RuleSetView, TOTAL_WEIGHT, MAX_REWARD};
use vstd::prelude::*;

verus! {

/// `b` raised to the power `e`.
pub open spec fn power(b: int, e: nat) -> int
    decreases e,
{
    if e == 0 {
        1
    } else {
        b * power(b, (e - 1) as nat)
    }
}

/// `n!`.
pub open spec fn fact(n: nat) -> nat
    decreases n,
{
    if n == 0 {
        1
    } else {
        n * fact((n - 1) as nat)
    }
}

/// Number of ways to choose `k` of `n` reels.
pub open spec fn binomial(n: nat, k: nat) -> int {
    fact(n) as int / (fact(k) * fact((n - k) as nat)) as int
}

/// Weight of `f` in a probability space; zero when absent.
pub open spec fn weight_of(prob: Seq<(Fruit, u16)>, f: Fruit) -> int
    decreases prob.len(),
{
    if prob.len() == 0 {
        0
    } else if prob.last().0 == f {
        prob.last().1 as int
    } else {
        weight_of(prob.drop_last(), f)
    }
}

/// `TOTAL_WEIGHT ^ n` times the probability that a symbol of weight `w` shows on
/// exactly `k` of `n` independent reels: `C(n, k) * w^k * (TOTAL_WEIGHT - w)^(n - k)`.
pub open spec fn hit_mass(w: int, k: nat, n: nat) -> int {
    binomial(n, k) * power(w, k) * power(TOTAL_WEIGHT - w, (n - k) as nat)
}

/// `TOTAL_WEIGHT ^ wheel_count` times the expected return of the reward entries
/// `t`: the sum over the entries of reward times hit probability.
pub open spec fn return_mass(prob: Seq<(Fruit, u16)>, t: Seq<((Fruit, u8), u16)>, n: nat) -> int
    decreases t.len(),
{
    if t.len() == 0 {
        0
    } else {
        return_mass(prob, t.drop_last(), n) + t.last().1 as int * hit_mass(
            weight_of(prob, t.last().0.0),
            t.last().0.1 as nat,
            n,
        )
    }
}

/// Numerator of the exact expected return of a rule set.
pub open spec fn expected_return_numerator(rs: RuleSetView) -> int {
    return_mass(rs.prob, rs.rewards, rs.wheel_count as nat)
}

/// Denominator of the exact expected return of a rule set.
pub open spec fn expected_return_denominator(rs: RuleSetView) -> int {
    power(TOTAL_WEIGHT as int, rs.wheel_count as nat)
}

proof fn lemma_known_values()
    ensures
        fact(5) == 120,
        fact(20) == 2432902008176640000,
        power(65535, 5) == 1208833588708967444709375,
{
    assert(fact(0) == 1);
    assert(fact(1) == 1);
    assert(fact(2) == 2);
    assert(fact(3) == 6);
    assert(fact(4) == 24);
    assert(fact(5) == 120);
    assert(fact(6) == 720);
    assert(fact(7) == 5040);
    assert(fact(8) == 40320);
    assert(fact(9) == 362880);
    assert(fact(10) == 3628800);
    assert(fact(11) == 39916800);
    assert(fact(12) == 479001600);
    assert(fact(13) == 6227020800);
    assert(fact(14) == 87178291200);
    assert(fact(15) == 1307674368000);
    assert(fact(16) == 20922789888000);
    assert(fact(17) == 355687428096000);
    assert(fact(18) == 6402373705728000);
    assert(fact(19) == 121645100408832000);
    assert(fact(20) == 2432902008176640000);
    assert(power(65535, 0) == 1);
    assert(power(65535, 1) == 65535);
    assert(power(65535, 2) == 4294836225);
    assert(power(65535, 3) == 281462092005375);
    assert(power(65535, 4) == 18445618199572250625);
    assert(power(65535, 5) == 1208833588708967444709375);
}

proof fn lemma_fact_positive(n: nat)
    ensures
        fact(n) >= 1,
    decreases n,
{
    if n > 0 {
        lemma_fact_positive((n - 1) as nat);
        assert(n * fact((n - 1) as nat) >= 1) by (nonlinear_arith)
            requires
                n >= 1,
                fact((n - 1) as nat) >= 1,
        ;
    }
}

proof fn lemma_fact_monotone(i: nat, j: nat)
    requires
        i <= j,
    ensures
        fact(i) <= fact(j),
    decreases j,
{
    if i < j {
        lemma_fact_monotone(i, (j - 1) as nat);
        lemma_fact_positive((j - 1) as nat);
        assert(fact((j - 1) as nat) <= j * fact((j - 1) as nat)) by (nonlinear_arith)
            requires
                j >= 1,
        ;
    }
}

/// `k! * (n - k)!` divides into `n!` without exceeding it.
proof fn lemma_fact_split(n: nat, k: nat)
    requires
        k <= n,
    ensures
        fact(k) * fact((n - k) as nat) <= fact(n),
    decreases n - k,
{
    lemma_fact_positive(k);
    if k < n {
        let m = (n - k - 1) as nat;
        lemma_fact_split((n - 1) as nat, k);
        lemma_fact_positive(m);
        let a = fact(k);
        let b = fact(m);
        assert(fact((n - k) as nat) == (m + 1) * b);
        assert(fact(n) == n * fact((n - 1) as nat));
        assert(a * ((m + 1) * b) <= n * fact((n - 1) as nat)) by (nonlinear_arith)
            requires
                a * b <= fact((n - 1) as nat),
                m + 1 <= n,
                a >= 1,
                b >= 1,
        ;
    } else {
        assert(fact((n - k) as nat) == 1);
        assert(fact(k) * 1 == fact(k));
    }
}

proof fn lemma_power_nonneg_le(x: int, y: int, e: nat)
    requires
        0 <= x <= y,
    ensures
        0 <= power(x, e) <= power(y, e),
    decreases e,
{
    if e > 0 {
        lemma_power_nonneg_le(x, y, (e - 1) as nat);
        let px = power(x, (e - 1) as nat);
        let py = power(y, (e - 1) as nat);
        assert(x * px <= y * py) by (nonlinear_arith)
            requires
                0 <= x <= y,
                0 <= px <= py,
        ;
        assert(0 <= x * px) by (nonlinear_arith)
            requires
                0 <= x,
                0 <= px,
        ;
    }
}

proof fn lemma_power_adds(b: int, e1: nat, e2: nat)
    ensures
        power(b, e1) * power(b, e2) == power(b, e1 + e2),
    decreases e1,
{
    if e1 > 0 {
        lemma_power_adds(b, (e1 - 1) as nat, e2);
        assert(b * power(b, (e1 - 1) as nat) * power(b, e2) == b * (power(b, (e1 - 1) as nat)
            * power(b, e2))) by (nonlinear_arith);
    }
}

proof fn lemma_power_exponent_monotone(b: int, e1: nat, e2: nat)
    requires
        b >= 1,
        e1 <= e2,
    ensures
        1 <= power(b, e1) <= power(b, e2),
    decreases e2,
{
    if e2 > 0 {
        if e1 < e2 {
            lemma_power_exponent_monotone(b, e1, (e2 - 1) as nat);
        } else {
            lemma_power_exponent_monotone(b, (e1 - 1) as nat, (e2 - 1) as nat);
        }
        let p = power(b, (e2 - 1) as nat);
        assert(p <= b * p) by (nonlinear_arith)
            requires
                b >= 1,
                p >= 1,
        ;
    }
}

/// Bound on the mass of a single reward entry.
proof fn lemma_entry_mass_bound(r: int, w: int, k: nat, n: nat)
    requires
        0 <= r <= MAX_REWARD,
        0 <= w <= TOTAL_WEIGHT,
        k <= n <= 5,
    ensures
        0 <= r * hit_mass(w, k, n) <= MAX_REWARD * 120 * power(TOTAL_WEIGHT as int, 5),
{
    let m = TOTAL_WEIGHT as int;
    lemma_fact_split(n, k);
    lemma_fact_positive(k);
    lemma_fact_positive((n - k) as nat);
    lemma_fact_monotone(n, 5);
    lemma_known_values();
    let d = (fact(k) * fact((n - k) as nat)) as int;
    let c = binomial(n, k);
    assert(d >= 1) by (nonlinear_arith)
        requires
            fact(k) >= 1,
            fact((n - k) as nat) >= 1,
            d == fact(k) * fact((n - k) as nat),
    ;
    assert(0 <= c <= fact(n)) by (nonlinear_arith)
        requires
            c == fact(n) as int / d,
            d >= 1,
            fact(n) >= 0,
    ;
    lemma_power_nonneg_le(w, m, k);
    lemma_power_nonneg_le(m - w, m, (n - k) as nat);
    lemma_power_adds(m, k, (n - k) as nat);
    lemma_power_exponent_monotone(m, n, 5);
    let a = power(w, k);
    let b = power(m - w, (n - k) as nat);
    let top = power(m, 5);
    assert(a * b <= power(m, k) * power(m, (n - k) as nat)) by (nonlinear_arith)
        requires
            0 <= a <= power(m, k),
            0 <= b <= power(m, (n - k) as nat),
    ;
    assert(0 <= r * (c * a * b) <= MAX_REWARD * 120 * top) by (nonlinear_arith)
        requires
            0 <= r <= MAX_REWARD,
            0 <= c <= 120,
            0 <= a,
            0 <= b,
            a * b <= top,
    ;
}

/// `n!`, for `n` small enough that it fits in 64 bits.
pub fn factorial(n: u8) -> (r: u64)
    requires
        n <= 20,
    ensures
        r == fact(n as nat),
{
    proof {
        lemma_fact_monotone(n as nat, 20);
        lemma_known_values();
    }
    let mut t: u64 = 1;
    let mut i: u8 = 1;
    while i <= n
        invariant
            1 <= i <= n + 1,
            n <= 20,
            t == fact((i - 1) as nat),
            fact(n as nat) <= 2432902008176640000,
        decreases n + 1 - i,
    {
        proof {
            lemma_fact_monotone(i as nat, n as nat);
            assert(fact(i as nat) == i * fact((i - 1) as nat));
            assert(t * i == fact(i as nat)) by (nonlinear_arith)
                requires
                    t == fact((i - 1) as nat),
                    fact(i as nat) == i * fact((i - 1) as nat),
            ;
        }
        t = t * i as u64;
        i = i + 1;
    }
    t
}

/// Number of ways to choose `k` of `n` reels.
pub fn combinari(n: u8, k: u8) -> (r: u64)
    requires
        k <= n <= 20,
    ensures
        r == binomial(n as nat, k as nat),
{
    proof {
        lemma_fact_split(n as nat, k as nat);
        lemma_fact_positive(k as nat);
        lemma_fact_positive((n - k) as nat);
        assert(fact(k as nat) * fact((n - k) as nat) >= 1) by (nonlinear_arith)
            requires
                fact(k as nat) >= 1,
                fact((n - k) as nat) >= 1,
        ;
    }
    factorial(n) / (factorial(k) * factorial(n - k))
}

/// `b ^ e`, for a weight `b` and at most five factors.
fn power_u128(b: u16, e: u8) -> (r: u128)
    requires
        e <= 5,
    ensures
        r == power(b as int, e as nat),
{
    proof {
        lemma_power_nonneg_le(b as int, 65535, 5);
        lemma_power_exponent_monotone(65535, e as nat, 5);
        lemma_known_values();
    }
    let mut t: u128 = 1;
    let mut i: u8 = 0;
    while i < e
        invariant
            i <= e <= 5,
            t == power(b as int, i as nat),
            power(65535, 5) == 1208833588708967444709375,
        decreases e - i,
    {
        proof {
            lemma_power_nonneg_le(b as int, 65535, (i + 1) as nat);
            lemma_power_exponent_monotone(65535, (i + 1) as nat, 5);
            assert(power(b as int, (i + 1) as nat) == b * power(b as int, i as nat));
            assert(t * b == power(b as int, (i + 1) as nat)) by (nonlinear_arith)
                requires
                    t == power(b as int, i as nat),
                    power(b as int, (i + 1) as nat) == b * power(b as int, i as nat),
            ;
        }
        t = t * b as u128;
        i = i + 1;
    }
    t
}

/// Weight of `f` in `prob`; zero when absent.
fn weight_lookup(prob: &[(Fruit, u16)], f: Fruit) -> (r: u16)
    ensures
        r == weight_of(prob@, f),
{
    let mut i: usize = prob.len();
    proof {
        assert(prob@.take(prob@.len() as int) =~= prob@);
    }
    while i > 0
        invariant
            i <= prob@.len(),
            weight_of(prob@, f) == weight_of(prob@.take(i as int), f),
        decreases i,
    {
        let (g, w) = prob[i - 1];
        proof {
            assert(prob@.take(i as int).drop_last() =~= prob@.take(i - 1));
        }
        if g == f {
            return w;
        }
        i = i - 1;
    }
    0
}

impl RuleSet {
    /// Exact expected return as `(numerator, denominator)`: the sum over the
    /// reward entries of reward times `C(n, k) * w^k * (TOTAL_WEIGHT - w)^(n - k)`,
    /// over `TOTAL_WEIGHT ^ n`, for `n` reels.
    pub fn projected_return_exact(&self) -> (r: (u128, u128))
        requires
            self.wf(),
            self@.wheel_count <= 5,
        ensures
            r.0 == expected_return_numerator(self@),
            r.1 == expected_return_denominator(self@),
    {
        proof {
            lemma_view_fields(self);
            lemma_rule_set_sizes(self@);
            lemma_known_values();
        }
        let n = self.wheel_count;
        let mut total: u128 = 0;
        let mut i: usize = 0;
        while i < self.rewards.len()
            invariant
                self.wf(),
                self@.prob == self.prob@,
                self@.rewards == self.rewards@,
                n == self.wheel_count <= 5,
                self@.wheel_count == self.wheel_count,
                i <= self.rewards@.len() <= 3072,
                total == return_mass(self.prob@, self.rewards@.take(i as int), n as nat),
                0 <= total <= i * (MAX_REWARD * 120 * 1208833588708967444709375),
                power(65535, 5) == 1208833588708967444709375,
            decreases self.rewards@.len() - i,
        {
            let ((f, k), reward) = self.rewards[i];
            assert(1 <= self.rewards@[i as int].0.1 <= n);
            let w = weight_lookup(self.prob.as_slice(), f);
            let c = combinari(n, k);
            let a = power_u128(w, k);
            let b = power_u128(TOTAL_WEIGHT - w, n - k);
            proof {
                lemma_entry_mass_bound(reward as int, w as int, k as nat, n as nat);
                lemma_power_nonneg_le(w as int, 65535, k as nat);
                lemma_power_nonneg_le((65535 - w) as int, 65535, (n - k) as nat);
                lemma_power_exponent_monotone(65535, k as nat, 5);
                lemma_power_exponent_monotone(65535, (n - k) as nat, 5);
                lemma_fact_split(n as nat, k as nat);
                lemma_fact_monotone(n as nat, 5);
                lemma_known_values();
                assert(self.rewards@.take(i + 1).drop_last() =~= self.rewards@.take(i as int));
                let top = power(65535, 5);
                lemma_fact_positive(k as nat);
                lemma_fact_positive((n - k) as nat);
                assert(fact(k as nat) * fact((n - k) as nat) >= 1) by (nonlinear_arith)
                    requires
                        fact(k as nat) >= 1,
                        fact((n - k) as nat) >= 1,
                ;
                assert(0 <= c <= 120) by (nonlinear_arith)
                    requires
                        c == fact(n as nat) as int / (fact(k as nat) * fact((n - k) as nat)) as int,
                        fact(k as nat) * fact((n - k) as nat) >= 1,
                        fact(n as nat) <= 120,
                ;
                lemma_power_adds(65535, k as nat, (n - k) as nat);
                lemma_power_exponent_monotone(65535, n as nat, 5);
                assert(c * a <= 120 * top && c * a * b <= 120 * top && 0 <= c * a * b) by (nonlinear_arith)
                    requires
                        0 <= c <= 120,
                        0 <= a <= power(65535, k as nat),
                        0 <= b <= power(65535, (n - k) as nat),
                        1 <= power(65535, k as nat) <= top,
                        power(65535, k as nat) * power(65535, (n - k) as nat) <= top,
                ;
                assert(reward * (c * a * b) <= MAX_REWARD * 120 * top) by (nonlinear_arith)
                    requires
                        0 <= reward <= MAX_REWARD,
                        0 <= c * a * b <= 120 * top,
                ;
            }
            let term = reward as u128 * (c as u128 * a * b);
            proof {
                let bound = MAX_REWARD * 120 * 1208833588708967444709375;
                assert(bound == 8074911665888805813263048250000);
                assert(total + term <= (i + 1) * bound && (i + 1) * bound <= 3072 * bound) by (nonlinear_arith)
                    requires
                        0 <= total <= i * bound,
                        0 <= term <= bound,
                        i + 1 <= 3072,
                        bound >= 0,
                ;
            }
            total = total + term;
            i = i + 1;
        }
        proof {
            assert(self.rewards@.take(self.rewards@.len() as int) =~= self.rewards@);
        }
        (total, power_u128(TOTAL_WEIGHT, n))
    }
}

} // verus!
