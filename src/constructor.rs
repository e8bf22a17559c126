//! Rust source text that rebuilds a rule set through this library.

use crate::fruit::{fruit_name, Fruit};
use crate::rule_set::{lemma_view_fields, RuleSet, RuleSetView};
use vstd::prelude::*;
use vstd::string::*;

verus! {

/// Decimal digit `d` as text.
pub open spec fn digit_text(d: int) -> Seq<char> {
    if d == 0 {
        "0"@
    } else if d == 1 {
        "1"@
    } else if d == 2 {
        "2"@
    } else if d == 3 {
        "3"@
    } else if d == 4 {
        "4"@
    } else if d == 5 {
        "5"@
    } else if d == 6 {
        "6"@
    } else if d == 7 {
        "7"@
    } else if d == 8 {
        "8"@
    } else {
        "9"@
    }
}

/// Decimal representation of `n`, without leading zeros.
pub open spec fn decimal(n: nat) -> Seq<char>
    decreases n,
{
    if n < 10 {
        digit_text(n as int)
    } else {
        decimal(n / 10) + digit_text((n % 10) as int)
    }
}

/// Source text of one probability entry.
pub open spec fn prob_row(e: (Fruit, u16)) -> Seq<char> {
    "(Fruit::"@ + fruit_name(e.0) + ", "@ + decimal(e.1 as nat) + ")"@
}

/// Source text of one reward entry.
pub open spec fn reward_row(e: ((Fruit, u8), u16)) -> Seq<char> {
    "((Fruit::"@ + fruit_name(e.0.0) + ", "@ + decimal(e.0.1 as nat) + "), "@ + decimal(e.1 as nat)
        + ")"@
}

/// Probability entries as source text, one per line.
pub open spec fn prob_rows(s: Seq<(Fruit, u16)>) -> Seq<char>
    decreases s.len(),
{
    if s.len() == 0 {
        Seq::empty()
    } else if s.len() == 1 {
        prob_row(s[0])
    } else {
        prob_rows(s.drop_last()) + ",\n"@ + prob_row(s.last())
    }
}

/// Reward entries as source text, one per line.
pub open spec fn reward_rows(t: Seq<((Fruit, u8), u16)>) -> Seq<char>
    decreases t.len(),
{
    if t.len() == 0 {
        Seq::empty()
    } else if t.len() == 1 {
        reward_row(t[0])
    } else {
        reward_rows(t.drop_last()) + ",\n"@ + reward_row(t.last())
    }
}

/// Source text of a function `name` that rebuilds the rule set `rs`.
pub open spec fn constructor_text(name: Seq<char>, rs: RuleSetView) -> Seq<char> {
    "\nuse pacanele::fruit::Fruit;\nuse pacanele::rule_set::RuleSet;\n\npub fn "@ + name
        + "() -> Option<RuleSet> {\n    RuleSet::new(\n        vec![\n"@ + prob_rows(rs.prob)
        + "\n        ],\n        vec![\n"@ + reward_rows(rs.rewards) + "\n        ],\n        "@
        + decimal(rs.wheel_count as nat) + ",\n    )\n}\n"@
}

/// Decimal digit `d` as text.
fn digit_str(d: u8) -> (r: &'static str)
    ensures
        r@ == digit_text(d as int),
{
    if d == 0 {
        "0"
    } else if d == 1 {
        "1"
    } else if d == 2 {
        "2"
    } else if d == 3 {
        "3"
    } else if d == 4 {
        "4"
    } else if d == 5 {
        "5"
    } else if d == 6 {
        "6"
    } else if d == 7 {
        "7"
    } else if d == 8 {
        "8"
    } else {
        "9"
    }
}

/// Decimal representation of `n`.
pub fn decimal_string(n: u32) -> (r: String)
    ensures
        r@ == decimal(n as nat),
    decreases n,
{
    if n < 10 {
        String::from_str(digit_str(n as u8))
    } else {
        let mut s = decimal_string(n / 10);
        s.append(digit_str((n % 10) as u8));
        s
    }
}

/// Appends the source text of a probability entry.
fn push_prob_row(out: &mut String, e: (Fruit, u16))
    ensures
        final(out)@ == old(out)@ + prob_row(e),
{
    out.append("(Fruit::");
    out.append(e.0.to_link_str());
    out.append(", ");
    let num = decimal_string(e.1 as u32);
    out.append(num.as_str());
    out.append(")");
    proof {
        assert(out@ =~= old(out)@ + prob_row(e));
    }
}

/// Appends the source text of a reward entry.
fn push_reward_row(out: &mut String, e: ((Fruit, u8), u16))
    ensures
        final(out)@ == old(out)@ + reward_row(e),
{
    out.append("((Fruit::");
    out.append(e.0.0.to_link_str());
    out.append(", ");
    let kn = decimal_string(e.0.1 as u32);
    out.append(kn.as_str());
    out.append("), ");
    let wn = decimal_string(e.1 as u32);
    out.append(wn.as_str());
    out.append(")");
    proof {
        assert(out@ =~= old(out)@ + reward_row(e));
    }
}

impl RuleSet {
    /// Rust source text of a function `name` that rebuilds this rule set.
    pub fn rust_constructor(&self, name: &str) -> (r: String)
        ensures
            r@ == constructor_text(name@, self@),
    {
        proof {
            lemma_view_fields(self);
        }
        let mut out = String::from_str("\nuse pacanele::fruit::Fruit;\nuse pacanele::rule_set::RuleSet;\n\npub fn ");
        out.append(name);
        out.append("() -> Option<RuleSet> {\n    RuleSet::new(\n        vec![\n");
        let ghost head = out@;
        let mut i: usize = 0;
        while i < self.prob.len()
            invariant
                i <= self.prob@.len(),
                out@ == head + prob_rows(self.prob@.take(i as int)),
            decreases self.prob@.len() - i,
        {
            let (f, w) = self.prob[i];
            if i > 0 {
                out.append(",\n");
            }
            push_prob_row(&mut out, (f, w));
            proof {
                let s = self.prob@.take(i + 1);
                assert(s.drop_last() =~= self.prob@.take(i as int));
                assert(s.last() == (f, w));
                if i == 0 {
                    assert(prob_rows(self.prob@.take(0)) == Seq::<char>::empty());
                }
                assert(out@ =~= head + prob_rows(s));
            }
            i = i + 1;
        }
        proof {
            assert(self.prob@.take(self.prob@.len() as int) =~= self.prob@);
        }
        out.append("\n        ],\n        vec![\n");
        let ghost mid = out@;
        let mut j: usize = 0;
        while j < self.rewards.len()
            invariant
                j <= self.rewards@.len(),
                out@ == mid + reward_rows(self.rewards@.take(j as int)),
            decreases self.rewards@.len() - j,
        {
            let ((f, k), w) = self.rewards[j];
            if j > 0 {
                out.append(",\n");
            }
            push_reward_row(&mut out, ((f, k), w));
            proof {
                let t = self.rewards@.take(j + 1);
                assert(t.drop_last() =~= self.rewards@.take(j as int));
                assert(t.last() == ((f, k), w));
                if j == 0 {
                    assert(reward_rows(self.rewards@.take(0)) == Seq::<char>::empty());
                }
                assert(out@ =~= mid + reward_rows(t));
            }
            j = j + 1;
        }
        proof {
            assert(self.rewards@.take(self.rewards@.len() as int) =~= self.rewards@);
        }
        out.append("\n        ],\n        ");
        let wc = decimal_string(self.wheel_count as u32);
        out.append(wc.as_str());
        out.append(",\n    )\n}\n");
        proof {
            assert(out@ =~= constructor_text(name@, self@));
        }
        out
    }
}

} // verus!
