//! The default rule set, embedded as its binary artifact. It was calibrated
//! for an expected return of 0.96 over three reels.

use crate::codec::{decode_rule_set, DecodeError};
use crate::rule_set::RuleSet;
use vstd::prelude::*;

verus! {

/// Bytes of the default artifact.
pub open spec fn default_rule_bytes() -> Seq<u8> {
    seq![
        12, 0, 0, 0, 0, 0, 0, 0, 0, 0, 0, 0, 75, 40, 1, 0,
        0, 0, 64, 31, 2, 0, 0, 0, 255, 28, 3, 0, 0, 0, 130, 27,
        4, 0, 0, 0, 250, 25, 5, 0, 0, 0, 166, 18, 6, 0, 0, 0,
        95, 18, 7, 0, 0, 0, 186, 17, 8, 0, 0, 0, 80, 16, 9, 0,
        0, 0, 149, 13, 10, 0, 0, 0, 241, 8, 11, 0, 0, 0, 100, 8,
        25, 0, 0, 0, 0, 0, 0, 0, 0, 0, 0, 0, 1, 1, 0, 0,
        0, 0, 0, 2, 1, 0, 0, 0, 0, 0, 3, 3, 0, 1, 0, 0,
        0, 2, 2, 0, 1, 0, 0, 0, 3, 3, 0, 2, 0, 0, 0, 2,
        2, 0, 2, 0, 0, 0, 3, 6, 0, 3, 0, 0, 0, 2, 2, 0,
        3, 0, 0, 0, 3, 7, 0, 4, 0, 0, 0, 2, 2, 0, 4, 0,
        0, 0, 3, 10, 0, 5, 0, 0, 0, 2, 2, 0, 5, 0, 0, 0,
        3, 36, 0, 6, 0, 0, 0, 2, 2, 0, 6, 0, 0, 0, 3, 37,
        0, 7, 0, 0, 0, 2, 2, 0, 7, 0, 0, 0, 3, 43, 0, 8,
        0, 0, 0, 2, 3, 0, 8, 0, 0, 0, 3, 56, 0, 9, 0, 0,
        0, 2, 2, 0, 9, 0, 0, 0, 3, 98, 0, 10, 0, 0, 0, 2,
        3, 0, 10, 0, 0, 0, 3, 100, 1, 11, 0, 0, 0, 2, 3, 0,
        11, 0, 0, 0, 3, 177, 1, 3,
    ]
}

/// The default artifact.
pub fn default_artifact() -> (r: Vec<u8>)
    ensures
        r@ == default_rule_bytes(),
{
    let r: Vec<u8> = vec![
        12, 0, 0, 0, 0, 0, 0, 0, 0, 0, 0, 0, 75, 40, 1, 0,
        0, 0, 64, 31, 2, 0, 0, 0, 255, 28, 3, 0, 0, 0, 130, 27,
        4, 0, 0, 0, 250, 25, 5, 0, 0, 0, 166, 18, 6, 0, 0, 0,
        95, 18, 7, 0, 0, 0, 186, 17, 8, 0, 0, 0, 80, 16, 9, 0,
        0, 0, 149, 13, 10, 0, 0, 0, 241, 8, 11, 0, 0, 0, 100, 8,
        25, 0, 0, 0, 0, 0, 0, 0, 0, 0, 0, 0, 1, 1, 0, 0,
        0, 0, 0, 2, 1, 0, 0, 0, 0, 0, 3, 3, 0, 1, 0, 0,
        0, 2, 2, 0, 1, 0, 0, 0, 3, 3, 0, 2, 0, 0, 0, 2,
        2, 0, 2, 0, 0, 0, 3, 6, 0, 3, 0, 0, 0, 2, 2, 0,
        3, 0, 0, 0, 3, 7, 0, 4, 0, 0, 0, 2, 2, 0, 4, 0,
        0, 0, 3, 10, 0, 5, 0, 0, 0, 2, 2, 0, 5, 0, 0, 0,
        3, 36, 0, 6, 0, 0, 0, 2, 2, 0, 6, 0, 0, 0, 3, 37,
        0, 7, 0, 0, 0, 2, 2, 0, 7, 0, 0, 0, 3, 43, 0, 8,
        0, 0, 0, 2, 3, 0, 8, 0, 0, 0, 3, 56, 0, 9, 0, 0,
        0, 2, 2, 0, 9, 0, 0, 0, 3, 98, 0, 10, 0, 0, 0, 2,
        3, 0, 10, 0, 0, 0, 3, 100, 1, 11, 0, 0, 0, 2, 3, 0,
        11, 0, 0, 0, 3, 177, 1, 3,
    ];
    assert(r@ =~= default_rule_bytes());
    r
}

impl RuleSet {
    /// Decodes the default artifact.
    pub fn default_internal_deserialize() -> (r: Result<RuleSet, DecodeError>)
        ensures
            r matches Ok(rs) ==> decode_rule_set(default_rule_bytes()) == Some(rs@),
            r is Err <==> decode_rule_set(default_rule_bytes()) is None,
    {
        let bytes = default_artifact();
        RuleSet::deserialize(bytes.as_slice())
    }
}

} // verus!
