//! Decisions of the on-chain spin program: the seed it derives from ledger
//! state, the bets it accepts and the payout it sends back.

use crate::estimate::power;
use crate::fruit::Fruit;
use crate::rule_set::{is_spin_outcome, RuleSet};
use rand::{Rng, SeedableRng};
use vstd::bytes::*;
use vstd::prelude::*;
use vstd::slice::slice_subrange;

verus! {

/// Smallest stake factor: a bet must exceed this many base fees.
pub const MIN_BET_FEES: u64 = 33;

/// Base fee of a transaction, in lamports.
pub const BASE_FEE: u64 = 5000;

/// Lamports the bank keeps for rent, counted twice.
pub const RENT_RESERVE: u64 = 890880;

/// Seed bytes: each block-hash word combined by exclusive or with the
/// matching clock word, all four words little-endian.
pub open spec fn mixed_entropy(hashes: Seq<u64>, clock: Seq<u64>) -> Seq<u8> {
    spec_u64_to_le_bytes(hashes[0] ^ clock[0]) + spec_u64_to_le_bytes(hashes[1] ^ clock[1])
        + spec_u64_to_le_bytes(hashes[2] ^ clock[2]) + spec_u64_to_le_bytes(hashes[3] ^ clock[3])
}

/// Combines four block-hash words with four clock words into 32 seed bytes.
pub fn mix_entropy(hashes: &[u64; 4], clock: &[u64; 4]) -> (r: Vec<u8>)
    ensures
        r@ == mixed_entropy(hashes@, clock@),
        r@.len() == 32,
{
    proof {
        lemma_auto_spec_u64_to_from_le_bytes();
    }
    let mut out = u64_to_le_bytes(hashes[0] ^ clock[0]);
    let mut b = u64_to_le_bytes(hashes[1] ^ clock[1]);
    out.append(&mut b);
    let mut c = u64_to_le_bytes(hashes[2] ^ clock[2]);
    out.append(&mut c);
    let mut d = u64_to_le_bytes(hashes[3] ^ clock[3]);
    out.append(&mut d);
    proof {
        assert(out@ =~= mixed_entropy(hashes@, clock@));
    }
    out
}

/// The little-endian word at byte `at`.
pub open spec fn word_at(data: Seq<u8>, at: int) -> u64 {
    spec_u64_from_le_bytes(data.subrange(at, at + 8))
}

/// Four words sampled from the slot-hashes data: at byte 16, sixteen bytes
/// before the end, at the middle and at a third; `None` when the data is
/// shorter than 24 bytes.
pub fn get_recent_block_hashes(data: &[u8]) -> (r: Option<Vec<u64>>)
    ensures
        data@.len() < 24 <==> r is None,
        r matches Some(w) ==> w@ == seq![
            word_at(data@, 16),
            word_at(data@, data@.len() - 16),
            word_at(data@, (data@.len() / 2) as int),
            word_at(data@, (data@.len() / 3) as int),
        ],
{
    let len = data.len();
    if len < 24 {
        return None;
    }
    let v1 = u64_from_le_bytes(slice_subrange(data, 16, 24));
    let v2 = u64_from_le_bytes(slice_subrange(data, len - 16, len - 8));
    let v3 = u64_from_le_bytes(slice_subrange(data, len / 2, len / 2 + 8));
    let v4 = u64_from_le_bytes(slice_subrange(data, len / 3, len / 3 + 8));
    let r = vec![v1, v2, v3, v4];
    assert(r@ =~= seq![
        word_at(data@, 16),
        word_at(data@, data@.len() - 16),
        word_at(data@, (data@.len() / 2) as int),
        word_at(data@, (data@.len() / 3) as int),
    ]);
    Some(r)
}

/// The three seed words that the ChaCha8 generator seeded with `entropy`
/// draws first.
pub uninterp spec fn chacha8_spin_seed(entropy: Seq<u8>) -> Seq<u16>;

/// Relies on `rand_chacha::ChaCha8Rng::from_seed` and `rand::Rng::gen` of a
/// `[u16; 3]`: a generator seeded with the 32 bytes is deterministic, so the
/// three words depend on the bytes alone.
#[verifier::external_body]
fn chacha8_seed_words(entropy: &Vec<u8>) -> (r: Vec<u16>)
    requires
        entropy@.len() == 32,
    ensures
        r@ == chacha8_spin_seed(entropy@),
        r@.len() == 3,
{
    let seed: [u8; 32] = entropy.as_slice().try_into().unwrap();
    let words: [u16; 3] = rand_chacha::ChaCha8Rng::from_seed(seed).gen();
    words.to_vec()
}

impl RuleSet {
    /// Resolves the spin whose seed the ChaCha8 generator draws from
    /// `entropy`, as the ledger program does.
    pub fn play_from_entropy(&self, entropy: &Vec<u8>) -> (r: (Vec<Fruit>, u16))
        requires
            self.wf(),
            self@.wheel_count == 3,
            entropy@.len() == 32,
        ensures
            is_spin_outcome(self@, chacha8_spin_seed(entropy@), r.0@, r.1 as int),
    {
        let seed = chacha8_seed_words(entropy);
        self.play_random_from_seed(seed.as_slice())
    }
}

/// The stake for a bet exponent: `2^exp` lamports, when the exponent lies in
/// `11..=62`, the stake exceeds `MIN_BET_FEES` base fees, and both the player
/// and the bank hold more than the stake.
pub open spec fn stake_for(exp: int, player_lamports: int, bank_lamports: int) -> Option<u64> {
    let stake = power(2, exp as nat);
    if 10 < exp < 63 && stake > MIN_BET_FEES * BASE_FEE && stake < player_lamports && stake
        < bank_lamports {
        Some(stake as u64)
    } else {
        None
    }
}

/// Validates a bet given as a power-of-two exponent.
pub fn bet_amount(exp: u8, player_lamports: u64, bank_lamports: u64) -> (r: Option<u64>)
    ensures
        r == stake_for(exp as int, player_lamports as int, bank_lamports as int),
{
    if exp <= 10 || exp >= 63 {
        return None;
    }
    let mut stake: u64 = 1;
    let mut i: u8 = 0;
    proof {
        lemma_power_two_62();
        assert(power(2, 0) == 1);
    }
    while i < exp
        invariant
            i <= exp < 63,
            stake == power(2, i as nat),
            stake <= 0x4000_0000_0000_0000,
            power(2, i as nat) * power(2, (62 - i) as nat) == power(2, 62),
            power(2, 62) == 0x4000_0000_0000_0000,
        decreases exp - i,
    {
        proof {
            assert(power(2, (62 - i) as nat) == 2 * power(2, (62 - i - 1) as nat));
            assert(power(2, (i + 1) as nat) == 2 * power(2, i as nat));
            lemma_power_two_positive((62 - i - 1) as nat);
            assert(power(2, (i + 1) as nat) * power(2, (62 - i - 1) as nat) == power(2, 62)) by (nonlinear_arith)
                requires
                    power(2, i as nat) * power(2, (62 - i) as nat) == power(2, 62),
                    power(2, (62 - i) as nat) == 2 * power(2, (62 - i - 1) as nat),
                    power(2, (i + 1) as nat) == 2 * power(2, i as nat),
            ;
            assert(power(2, (i + 1) as nat) <= power(2, 62)) by (nonlinear_arith)
                requires
                    power(2, (i + 1) as nat) * power(2, (62 - i - 1) as nat) == power(2, 62),
                    power(2, (62 - i - 1) as nat) >= 1,
                    power(2, (i + 1) as nat) >= 0,
            ;
        }
        stake = stake * 2;
        i = i + 1;
    }
    if stake > MIN_BET_FEES * BASE_FEE && stake < player_lamports && stake < bank_lamports {
        Some(stake)
    } else {
        None
    }
}

proof fn lemma_power_two_positive(e: nat)
    ensures
        power(2, e) >= 1,
    decreases e,
{
    if e > 0 {
        lemma_power_two_positive((e - 1) as nat);
    }
}

proof fn lemma_power_two_62()
    ensures
        power(2, 62) == 0x4000_0000_0000_0000,
{
    assert(power(2, 0) == 1);
    assert(power(2, 1) == 2);
    assert(power(2, 2) == 4);
    assert(power(2, 3) == 8);
    assert(power(2, 4) == 16);
    assert(power(2, 5) == 32);
    assert(power(2, 6) == 64);
    assert(power(2, 7) == 128);
    assert(power(2, 8) == 256);
    assert(power(2, 9) == 512);
    assert(power(2, 10) == 1024);
    assert(power(2, 11) == 2048);
    assert(power(2, 12) == 4096);
    assert(power(2, 13) == 8192);
    assert(power(2, 14) == 16384);
    assert(power(2, 15) == 32768);
    assert(power(2, 16) == 65536);
    assert(power(2, 17) == 131072);
    assert(power(2, 18) == 262144);
    assert(power(2, 19) == 524288);
    assert(power(2, 20) == 1048576);
    assert(power(2, 21) == 2097152);
    assert(power(2, 22) == 4194304);
    assert(power(2, 23) == 8388608);
    assert(power(2, 24) == 16777216);
    assert(power(2, 25) == 33554432);
    assert(power(2, 26) == 67108864);
    assert(power(2, 27) == 134217728);
    assert(power(2, 28) == 268435456);
    assert(power(2, 29) == 536870912);
    assert(power(2, 30) == 1073741824);
    assert(power(2, 31) == 2147483648);
    assert(power(2, 32) == 4294967296);
    assert(power(2, 33) == 8589934592);
    assert(power(2, 34) == 17179869184);
    assert(power(2, 35) == 34359738368);
    assert(power(2, 36) == 68719476736);
    assert(power(2, 37) == 137438953472);
    assert(power(2, 38) == 274877906944);
    assert(power(2, 39) == 549755813888);
    assert(power(2, 40) == 1099511627776);
    assert(power(2, 41) == 2199023255552);
    assert(power(2, 42) == 4398046511104);
    assert(power(2, 43) == 8796093022208);
    assert(power(2, 44) == 17592186044416);
    assert(power(2, 45) == 35184372088832);
    assert(power(2, 46) == 70368744177664);
    assert(power(2, 47) == 140737488355328);
    assert(power(2, 48) == 281474976710656);
    assert(power(2, 49) == 562949953421312);
    assert(power(2, 50) == 1125899906842624);
    assert(power(2, 51) == 2251799813685248);
    assert(power(2, 52) == 4503599627370496);
    assert(power(2, 53) == 9007199254740992);
    assert(power(2, 54) == 18014398509481984);
    assert(power(2, 55) == 36028797018963968);
    assert(power(2, 56) == 72057594037927936);
    assert(power(2, 57) == 144115188075855872);
    assert(power(2, 58) == 288230376151711744);
    assert(power(2, 59) == 576460752303423488);
    assert(power(2, 60) == 1152921504606846976);
    assert(power(2, 61) == 2305843009213693952);
    assert(power(2, 62) == 4611686018427387904);
}

/// What the bank can pay at most: half its balance less the rent reserve,
/// and nothing when that is negative.
pub open spec fn max_payable(bank_lamports: int) -> int {
    if bank_lamports / 2 > 2 * RENT_RESERVE {
        bank_lamports / 2 - 2 * RENT_RESERVE
    } else {
        0
    }
}

/// Lamports paid for a reward: the stake times the reward, capped at what
/// the bank can pay.
pub fn win_lamports(stake: u64, reward: u16, bank_lamports: u64) -> (r: u64)
    ensures
        r == if stake * reward < max_payable(bank_lamports as int) {
            stake * reward
        } else {
            max_payable(bank_lamports as int)
        },
{
    let half = bank_lamports / 2;
    let cap: u64 = if half > 2 * RENT_RESERVE {
        half - 2 * RENT_RESERVE
    } else {
        0
    };
    let s = stake as u128;
    let w = reward as u128;
    assert(s * w <= 0xffff_ffff_ffff_ffff * 0xffff) by (nonlinear_arith)
        requires
            s <= 0xffff_ffff_ffff_ffff,
            w <= 0xffff,
    ;
    let won = s * w;
    if won < cap as u128 {
        won as u64
    } else {
        cap
    }
}

/// Key of the compute-budget program.
pub open spec fn compute_budget_id() -> Seq<u8> {
    seq![3, 6, 70, 111, 229, 33, 23, 50, 255, 236, 173, 186, 114, 195, 155, 231, 188, 140, 229, 187, 197, 247, 18, 107, 44, 67, 155, 58, 64, 0, 0, 0]
}

/// Key of the system program: 32 zero bytes.
pub open spec fn system_program_id() -> Seq<u8> {
    Seq::new(32, |i: int| 0u8)
}

/// The little-endian `u16` at byte `at`, if the data reaches that far.
pub open spec fn u16_at(d: Seq<u8>, at: int) -> Option<int> {
    if 0 <= at && at + 2 <= d.len() {
        Some(spec_u16_from_le_bytes(d.subrange(at, at + 2)) as int)
    } else {
        None
    }
}

/// Program key of instruction `index` in the instructions sysvar data: the
/// instruction's offset stands in the table after the count; at that offset
/// come the number of accounts, the accounts (33 bytes each), then the key.
pub open spec fn instruction_program(d: Seq<u8>, index: int) -> Option<Seq<u8>> {
    match u16_at(d, 2 + 2 * index) {
        None => None,
        Some(start) => match u16_at(d, start) {
            None => None,
            Some(accounts) => {
                let at = start + 2 + 33 * accounts;
                if at + 32 <= d.len() {
                    Some(d.subrange(at, at + 32))
                } else {
                    None
                }
            },
        },
    }
}

/// Why no calling program could be read from the instructions sysvar.
#[derive(Debug, Clone, Copy, PartialEq, Eq, Structural)]
pub enum ProgramIdError {
    /// The data does not hold the number of instructions.
    NoInstructions,
    /// An instruction lies beyond the end of the data.
    Malformed,
    /// Every instruction calls the compute-budget or the system program.
    NotFound,
}

/// First program key, from instruction `from` on, that is neither the
/// compute-budget nor the system program.
pub open spec fn program_from(d: Seq<u8>, from: int, n: int) -> Result<Seq<u8>, ProgramIdError>
    decreases n - from,
{
    if from >= n {
        Err(ProgramIdError::NotFound)
    } else {
        match instruction_program(d, from) {
            None => Err(ProgramIdError::Malformed),
            Some(p) => if p == compute_budget_id() || p == system_program_id() {
                program_from(d, from + 1, n)
            } else {
                Ok(p)
            },
        }
    }
}

/// The program that the transaction calls, read from the instructions sysvar.
pub open spec fn program_id_of(d: Seq<u8>) -> Result<Seq<u8>, ProgramIdError> {
    match u16_at(d, 0) {
        None => Err(ProgramIdError::NoInstructions),
        Some(n) => program_from(d, 0, n),
    }
}

fn read_u16_at(d: &[u8], at: usize) -> (r: Option<u16>)
    ensures
        r matches Some(v) ==> u16_at(d@, at as int) == Some(v as int),
        r is None <==> u16_at(d@, at as int) is None,
{
    if at <= d.len() && d.len() - at >= 2 {
        Some(u16_from_le_bytes(slice_subrange(d, at, at + 2)))
    } else {
        None
    }
}

fn bytes_equal(a: &[u8], b: &[u8]) -> (r: bool)
    ensures
        r == (a@ == b@),
{
    if a.len() != b.len() {
        return false;
    }
    let mut i: usize = 0;
    while i < a.len()
        invariant
            i <= a@.len() == b@.len(),
            a@.take(i as int) == b@.take(i as int),
        decreases a@.len() - i,
    {
        if a[i] != b[i] {
            return false;
        }
        proof {
            assert(a@.take(i + 1) =~= a@.take(i as int).push(a@[i as int]));
            assert(b@.take(i + 1) =~= b@.take(i as int).push(b@[i as int]));
        }
        i = i + 1;
    }
    proof {
        assert(a@.take(a@.len() as int) =~= a@);
        assert(b@.take(b@.len() as int) =~= b@);
    }
    true
}

/// The program key that instruction `index` calls.
fn read_instruction_program(d: &[u8], index: u16) -> (r: Option<Vec<u8>>)
    ensures
        r matches Some(p) ==> instruction_program(d@, index as int) == Some(p@),
        r is None <==> instruction_program(d@, index as int) is None,
{
    let start = match read_u16_at(d, 2 + 2 * index as usize) {
        Some(s) => s,
        None => {
            return None;
        },
    };
    let accounts = match read_u16_at(d, start as usize) {
        Some(a) => a,
        None => {
            return None;
        },
    };
    let at: usize = start as usize + 2 + 33 * accounts as usize;
    if at <= d.len() && d.len() - at >= 32 {
        let p = slice_subrange(d, at, at + 32);
        Some(vstd::slice::slice_to_vec(p))
    } else {
        None
    }
}

/// Reads the program that the transaction calls from the instructions
/// sysvar data, passing over compute-budget and system instructions.
pub fn get_program_id(data: &[u8]) -> (r: Result<Vec<u8>, ProgramIdError>)
    ensures
        match r {
            Ok(p) => program_id_of(data@) == Ok::<Seq<u8>, ProgramIdError>(p@),
            Err(e) => program_id_of(data@) == Err::<Seq<u8>, ProgramIdError>(e),
        },
{
    let n = match read_u16_at(data, 0) {
        Some(n) => n,
        None => {
            return Err(ProgramIdError::NoInstructions);
        },
    };
    let budget: Vec<u8> = vec![3, 6, 70, 111, 229, 33, 23, 50, 255, 236, 173, 186, 114, 195, 155, 231, 188, 140, 229, 187, 197, 247, 18, 107, 44, 67, 155, 58, 64, 0, 0, 0];
    let system: Vec<u8> = vec![0u8; 32];
    proof {
        assert(budget@ =~= compute_budget_id());
        assert(system@ =~= system_program_id());
    }
    let mut index: u16 = 0;
    while index < n
        invariant
            index <= n,
            u16_at(data@, 0) == Some(n as int),
            budget@ == compute_budget_id(),
            system@ == system_program_id(),
            program_id_of(data@) == program_from(data@, index as int, n as int),
        decreases n - index,
    {
        let p = match read_instruction_program(data, index) {
            Some(p) => p,
            None => {
                return Err(ProgramIdError::Malformed);
            },
        };
        if !bytes_equal(p.as_slice(), budget.as_slice()) && !bytes_equal(p.as_slice(), system.as_slice()) {
            return Ok(p);
        }
        index = index + 1;
    }
    Err(ProgramIdError::NotFound)
}

} // verus!
