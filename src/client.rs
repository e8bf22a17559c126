//! Settings shared by the clients of the game.

use crate::estimate::power;
use vstd::prelude::*;
use vstd::string::*;

verus! {

/// Address of the RPC endpoint the clients talk to.
pub open spec fn solana_rpc_url() -> Seq<char> {
    "https://api.devnet.solana.com"@
}

/// Address of the RPC endpoint the clients talk to.
pub fn get_solana_rpc_url() -> (r: String)
    ensures
        r@ == solana_rpc_url(),
{
    String::from_str("https://api.devnet.solana.com")
}

/// `v` kept within `lo..=hi`.
pub open spec fn clamp(v: int, lo: int, hi: int) -> int {
    if v < lo {
        lo
    } else if v > hi {
        hi
    } else {
        v
    }
}

/// Compute-unit limit for a transaction that consumed `consumed` units when
/// simulated: half as much again plus 3000, kept within `5000..=166666`.
pub fn compute_unit_limit(consumed: u64) -> (r: u32)
    ensures
        r == clamp(consumed + 3000 + consumed / 2, 5000, 166666),
{
    let wanted = consumed as u128 + 3000 + (consumed / 2) as u128;
    if wanted < 5000 {
        5000
    } else if wanted > 166666 {
        166666
    } else {
        wanted as u32
    }
}

/// Sum of a sequence of fees.
pub open spec fn fee_sum(s: Seq<u64>) -> int
    decreases s.len(),
{
    if s.len() == 0 {
        0
    } else {
        fee_sum(s.drop_last()) + s.last()
    }
}

/// Priority fee to offer: the mean of the recent fees, kept within
/// `1..=50000`; 1 when there are none.
pub fn average_priority_fee(fees: &[u64]) -> (r: u64)
    ensures
        fees@.len() == 0 ==> r == 1,
        fees@.len() > 0 ==> r == clamp(fee_sum(fees@) / fees@.len() as int, 1, 50000),
{
    if fees.len() == 0 {
        return 1;
    }
    let mut total: u128 = 0;
    let mut i: usize = 0;
    while i < fees.len()
        invariant
            i <= fees@.len(),
            total == fee_sum(fees@.take(i as int)),
            total <= i * 0xffff_ffff_ffff_ffff,
        decreases fees@.len() - i,
    {
        proof {
            assert(fees@.take(i + 1).drop_last() =~= fees@.take(i as int));
            assert(i * 0xffff_ffff_ffff_ffffu128 + 0xffff_ffff_ffff_ffffu128 <= (i + 1) * 0xffff_ffff_ffff_ffff);
        }
        total = total + fees[i] as u128;
        i = i + 1;
    }
    proof {
        assert(fees@.take(fees@.len() as int) =~= fees@);
    }
    let mean = total / fees.len() as u128;
    if mean < 1 {
        1
    } else if mean > 50000 {
        50000
    } else {
        mean as u64
    }
}

/// A bet must be at least this many times the transaction price.
pub const MIN_BET_PER_FEE: u64 = 66;

/// Base fee of a transaction, in lamports.
pub const SOLANA_BASE_FEE: u64 = 5000;

/// `floor(log2(x))` for `x >= 1`, and 0 below.
pub open spec fn floor_log2(x: int) -> int
    decreases x,
{
    if x < 2 {
        0
    } else {
        1 + floor_log2(x / 2)
    }
}

proof fn lemma_floor_log2_bound(x: int, k: nat)
    requires
        0 <= x < power(2, k),
        k >= 1,
    ensures
        0 <= floor_log2(x) < k,
    decreases x,
{
    if x >= 2 {
        let j = (k - 1) as nat;
        assert(power(2, k) == 2 * power(2, j));
        if j == 0 {
            assert(power(2, 0) == 1);
        }
        lemma_floor_log2_bound(x / 2, j);
    }
}

proof fn lemma_power_two_128()
    ensures
        power(2, 128) == 0x1_0000_0000_0000_0000_0000_0000_0000_0000,
{
    assert(power(2, 0) == 1);
    assert(power(2, 1) == 2);
    assert(power(2, 2) == 4);
    assert(power(2, 3) == 8);
    assert(power(2, 4) == 16);
    assert(power(2, 5) == 32);
    assert(power(2, 6) == 64);
    assert(power(2, 7) == 128);
    assert(power(2, 8) == 256);
    assert(power(2, 9) == 512);
    assert(power(2, 10) == 1024);
    assert(power(2, 11) == 2048);
    assert(power(2, 12) == 4096);
    assert(power(2, 13) == 8192);
    assert(power(2, 14) == 16384);
    assert(power(2, 15) == 32768);
    assert(power(2, 16) == 65536);
    assert(power(2, 17) == 131072);
    assert(power(2, 18) == 262144);
    assert(power(2, 19) == 524288);
    assert(power(2, 20) == 1048576);
    assert(power(2, 21) == 2097152);
    assert(power(2, 22) == 4194304);
    assert(power(2, 23) == 8388608);
    assert(power(2, 24) == 16777216);
    assert(power(2, 25) == 33554432);
    assert(power(2, 26) == 67108864);
    assert(power(2, 27) == 134217728);
    assert(power(2, 28) == 268435456);
    assert(power(2, 29) == 536870912);
    assert(power(2, 30) == 1073741824);
    assert(power(2, 31) == 2147483648);
    assert(power(2, 32) == 4294967296);
    assert(power(2, 33) == 8589934592);
    assert(power(2, 34) == 17179869184);
    assert(power(2, 35) == 34359738368);
    assert(power(2, 36) == 68719476736);
    assert(power(2, 37) == 137438953472);
    assert(power(2, 38) == 274877906944);
    assert(power(2, 39) == 549755813888);
    assert(power(2, 40) == 1099511627776);
    assert(power(2, 41) == 2199023255552);
    assert(power(2, 42) == 4398046511104);
    assert(power(2, 43) == 8796093022208);
    assert(power(2, 44) == 17592186044416);
    assert(power(2, 45) == 35184372088832);
    assert(power(2, 46) == 70368744177664);
    assert(power(2, 47) == 140737488355328);
    assert(power(2, 48) == 281474976710656);
    assert(power(2, 49) == 562949953421312);
    assert(power(2, 50) == 1125899906842624);
    assert(power(2, 51) == 2251799813685248);
    assert(power(2, 52) == 4503599627370496);
    assert(power(2, 53) == 9007199254740992);
    assert(power(2, 54) == 18014398509481984);
    assert(power(2, 55) == 36028797018963968);
    assert(power(2, 56) == 72057594037927936);
    assert(power(2, 57) == 144115188075855872);
    assert(power(2, 58) == 288230376151711744);
    assert(power(2, 59) == 576460752303423488);
    assert(power(2, 60) == 1152921504606846976);
    assert(power(2, 61) == 2305843009213693952);
    assert(power(2, 62) == 4611686018427387904);
    assert(power(2, 63) == 9223372036854775808);
    assert(power(2, 64) == 18446744073709551616);
    assert(power(2, 65) == 36893488147419103232);
    assert(power(2, 66) == 73786976294838206464);
    assert(power(2, 67) == 147573952589676412928);
    assert(power(2, 68) == 295147905179352825856);
    assert(power(2, 69) == 590295810358705651712);
    assert(power(2, 70) == 1180591620717411303424);
    assert(power(2, 71) == 2361183241434822606848);
    assert(power(2, 72) == 4722366482869645213696);
    assert(power(2, 73) == 9444732965739290427392);
    assert(power(2, 74) == 18889465931478580854784);
    assert(power(2, 75) == 37778931862957161709568);
    assert(power(2, 76) == 75557863725914323419136);
    assert(power(2, 77) == 151115727451828646838272);
    assert(power(2, 78) == 302231454903657293676544);
    assert(power(2, 79) == 604462909807314587353088);
    assert(power(2, 80) == 1208925819614629174706176);
    assert(power(2, 81) == 2417851639229258349412352);
    assert(power(2, 82) == 4835703278458516698824704);
    assert(power(2, 83) == 9671406556917033397649408);
    assert(power(2, 84) == 19342813113834066795298816);
    assert(power(2, 85) == 38685626227668133590597632);
    assert(power(2, 86) == 77371252455336267181195264);
    assert(power(2, 87) == 154742504910672534362390528);
    assert(power(2, 88) == 309485009821345068724781056);
    assert(power(2, 89) == 618970019642690137449562112);
    assert(power(2, 90) == 1237940039285380274899124224);
    assert(power(2, 91) == 2475880078570760549798248448);
    assert(power(2, 92) == 4951760157141521099596496896);
    assert(power(2, 93) == 9903520314283042199192993792);
    assert(power(2, 94) == 19807040628566084398385987584);
    assert(power(2, 95) == 39614081257132168796771975168);
    assert(power(2, 96) == 79228162514264337593543950336);
    assert(power(2, 97) == 158456325028528675187087900672);
    assert(power(2, 98) == 316912650057057350374175801344);
    assert(power(2, 99) == 633825300114114700748351602688);
    assert(power(2, 100) == 1267650600228229401496703205376);
    assert(power(2, 101) == 2535301200456458802993406410752);
    assert(power(2, 102) == 5070602400912917605986812821504);
    assert(power(2, 103) == 10141204801825835211973625643008);
    assert(power(2, 104) == 20282409603651670423947251286016);
    assert(power(2, 105) == 40564819207303340847894502572032);
    assert(power(2, 106) == 81129638414606681695789005144064);
    assert(power(2, 107) == 162259276829213363391578010288128);
    assert(power(2, 108) == 324518553658426726783156020576256);
    assert(power(2, 109) == 649037107316853453566312041152512);
    assert(power(2, 110) == 1298074214633706907132624082305024);
    assert(power(2, 111) == 2596148429267413814265248164610048);
    assert(power(2, 112) == 5192296858534827628530496329220096);
    assert(power(2, 113) == 10384593717069655257060992658440192);
    assert(power(2, 114) == 20769187434139310514121985316880384);
    assert(power(2, 115) == 41538374868278621028243970633760768);
    assert(power(2, 116) == 83076749736557242056487941267521536);
    assert(power(2, 117) == 166153499473114484112975882535043072);
    assert(power(2, 118) == 332306998946228968225951765070086144);
    assert(power(2, 119) == 664613997892457936451903530140172288);
    assert(power(2, 120) == 1329227995784915872903807060280344576);
    assert(power(2, 121) == 2658455991569831745807614120560689152);
    assert(power(2, 122) == 5316911983139663491615228241121378304);
    assert(power(2, 123) == 10633823966279326983230456482242756608);
    assert(power(2, 124) == 21267647932558653966460912964485513216);
    assert(power(2, 125) == 42535295865117307932921825928971026432);
    assert(power(2, 126) == 85070591730234615865843651857942052864);
    assert(power(2, 127) == 170141183460469231731687303715884105728);
    assert(power(2, 128) == 340282366920938463463374607431768211456);
}

proof fn lemma_floor_log2_nonneg(x: int)
    ensures
        0 <= floor_log2(x),
    decreases x,
{
    if x >= 2 {
        lemma_floor_log2_nonneg(x / 2);
    }
}

/// `floor(log2(x))`, and 0 for 0.
pub fn floor_log2_u128(x: u128) -> (r: u8)
    ensures
        r == floor_log2(x as int),
{
    let mut v = x;
    let mut n: u8 = 0;
    proof {
        lemma_power_two_128();
        lemma_floor_log2_bound(x as int, 128);
    }
    while v >= 2
        invariant
            floor_log2(x as int) == n + floor_log2(v as int),
            0 <= floor_log2(v as int),
            floor_log2(x as int) < 128,
        decreases v,
    {
        proof {
            lemma_floor_log2_nonneg((v / 2) as int);
        }
        v = v / 2;
        n = n + 1;
    }
    n
}

/// Price of a spin transaction: the compute units at the unit price (in
/// millionths of a lamport) plus the base fee, and a tenth more.
pub open spec fn tx_price(compute_units: int, unit_price: int) -> int {
    let p = compute_units * unit_price / 1_000_000 + SOLANA_BASE_FEE;
    p + p / 10
}

/// What is left of a balance after rent, the transaction and one base fee;
/// nothing when that is negative.
pub open spec fn spendable(balance: int, rent: int, price: int) -> int {
    if balance - rent - price - SOLANA_BASE_FEE > 0 {
        balance - rent - price - SOLANA_BASE_FEE
    } else {
        0
    }
}

/// Why no bet can be offered.
#[derive(Debug, Clone, Copy, PartialEq, Eq, Structural)]
pub enum BetIntervalError {
    /// The bank cannot cover `MIN_BET_PER_FEE` transaction prices.
    BankTooPoor,
    /// The player cannot cover `MIN_BET_PER_FEE` transaction prices.
    PlayerTooPoor,
    /// The bounds derived from the balances leave no valid exponent.
    NoValidInterval,
}

/// The interval of bet exponents to offer, from the player's and the bank's
/// balances, the rent, and the simulated compute units and unit price.
pub open spec fn bet_interval_of(
    balance: int,
    bank_balance: int,
    rent: int,
    compute_units: int,
    unit_price: int,
) -> Result<(u8, u8), BetIntervalError> {
    let price = tx_price(compute_units, unit_price);
    let available = spendable(balance, rent, price);
    let bank_available = spendable(bank_balance, rent, price);
    if bank_available <= price * MIN_BET_PER_FEE + 1 {
        Err(BetIntervalError::BankTooPoor)
    } else if available <= price * MIN_BET_PER_FEE + 1 {
        Err(BetIntervalError::PlayerTooPoor)
    } else {
        let min_bet = floor_log2(price * MIN_BET_PER_FEE - 1);
        let max_bet = floor_log2(available - 1);
        let bank_bet = floor_log2((bank_available - 1) / MIN_BET_PER_FEE as int);
        if min_bet > 10 && max_bet > 10 && bank_bet > 10 && min_bet <= max_bet && max_bet < 62
            && bank_bet < 62 && min_bet <= bank_bet {
            Ok((min_bet as u8, if max_bet < bank_bet { max_bet as u8 } else { bank_bet as u8 }))
        } else {
            Err(BetIntervalError::NoValidInterval)
        }
    }
}

/// The interval of bet exponents, inclusive, that the player may choose.
pub fn bet_interval(
    balance: u64,
    bank_balance: u64,
    rent: u64,
    compute_units: u32,
    unit_price: u64,
) -> (r: Result<(u8, u8), BetIntervalError>)
    ensures
        r == bet_interval_of(
            balance as int,
            bank_balance as int,
            rent as int,
            compute_units as int,
            unit_price as int,
        ),
{
    let units = compute_units as u128;
    let unit_price = unit_price as u128;
    assert(units * unit_price <= 0xffff_ffff * 0xffff_ffff_ffff_ffff) by (nonlinear_arith)
        requires
            units <= 0xffff_ffff,
            unit_price <= 0xffff_ffff_ffff_ffff,
    ;
    let cost = units * unit_price;
    let base = cost / 1_000_000 + SOLANA_BASE_FEE as u128;
    let price = base + base / 10;
    let fixed = rent as u128 + price + SOLANA_BASE_FEE as u128;
    let available: u128 = if balance as u128 > fixed {
        balance as u128 - fixed
    } else {
        0
    };
    let bank_available: u128 = if bank_balance as u128 > fixed {
        bank_balance as u128 - fixed
    } else {
        0
    };
    let threshold = price * MIN_BET_PER_FEE as u128 + 1;
    if bank_available <= threshold {
        return Err(BetIntervalError::BankTooPoor);
    }
    if available <= threshold {
        return Err(BetIntervalError::PlayerTooPoor);
    }
    let min_bet = floor_log2_u128(price * MIN_BET_PER_FEE as u128 - 1);
    let max_bet = floor_log2_u128(available - 1);
    let bank_bet = floor_log2_u128((bank_available - 1) / MIN_BET_PER_FEE as u128);
    if min_bet > 10 && max_bet > 10 && bank_bet > 10 && min_bet <= max_bet && max_bet < 62
        && bank_bet < 62 && min_bet <= bank_bet {
        Ok((min_bet, if max_bet < bank_bet { max_bet } else { bank_bet }))
    } else {
        Err(BetIntervalError::NoValidInterval)
    }
}

} // verus!
