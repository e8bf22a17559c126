use pacanele::client::{average_priority_fee, bet_interval, compute_unit_limit, floor_log2_u128, BetIntervalError};
use pacanele::ledger::{get_program_id, ProgramIdError};

const COMPUTE_BUDGET: [u8; 32] = [
    3, 6, 70, 111, 229, 33, 23, 50, 255, 236, 173, 186, 114, 195, 155, 231, 188, 140, 229, 187,
    197, 247, 18, 107, 44, 67, 155, 58, 64, 0, 0, 0,
];

fn sysvar(programs: &[(u16, [u8; 32])]) -> Vec<u8> {
    let n = programs.len();
    let mut data = (n as u16).to_le_bytes().to_vec();
    let mut body: Vec<u8> = vec![];
    let mut starts = vec![];
    let header = 2 + 2 * n;
    for (accounts, key) in programs {
        starts.push((header + body.len()) as u16);
        body.extend(accounts.to_le_bytes());
        body.extend(vec![9u8; 33 * *accounts as usize]);
        body.extend(key);
    }
    for s in starts {
        data.extend(s.to_le_bytes());
    }
    data.extend(body);
    data
}

#[test]
fn program_id_skips_budget_and_system() {
    let data = sysvar(&[(0, COMPUTE_BUDGET), (0, [0; 32]), (2, [7; 32]), (0, [8; 32])]);
    assert_eq!(get_program_id(&data), Ok(vec![7; 32]));
}

#[test]
fn program_id_errors() {
    assert_eq!(get_program_id(&[]), Err(ProgramIdError::NoInstructions));
    assert_eq!(get_program_id(&[1]), Err(ProgramIdError::NoInstructions));
    assert_eq!(get_program_id(&[0, 0]), Err(ProgramIdError::NotFound));
    let only_budget = sysvar(&[(1, COMPUTE_BUDGET), (0, [0; 32])]);
    assert_eq!(get_program_id(&only_budget), Err(ProgramIdError::NotFound));
    let full = sysvar(&[(1, [5; 32])]);
    assert_eq!(get_program_id(&full[..full.len() - 1]), Err(ProgramIdError::Malformed));
    assert_eq!(get_program_id(&[1, 0]), Err(ProgramIdError::Malformed));
}

#[test]
fn compute_limit_is_padded_and_clamped() {
    assert_eq!(compute_unit_limit(0), 5000);
    assert_eq!(compute_unit_limit(2000), 6000);
    assert_eq!(compute_unit_limit(10000), 18000);
    assert_eq!(compute_unit_limit(1_000_000), 166666);
    assert_eq!(compute_unit_limit(u64::MAX), 166666);
}

#[test]
fn priority_fee_is_clamped_mean() {
    assert_eq!(average_priority_fee(&[]), 1);
    assert_eq!(average_priority_fee(&[0, 0]), 1);
    assert_eq!(average_priority_fee(&[10, 20, 31]), 20);
    assert_eq!(average_priority_fee(&[100000, 100000]), 50000);
    assert_eq!(average_priority_fee(&[u64::MAX, u64::MAX]), 50000);
}

#[test]
fn floor_log2_of_integers() {
    assert_eq!(floor_log2_u128(0), 0);
    assert_eq!(floor_log2_u128(1), 0);
    assert_eq!(floor_log2_u128(2), 1);
    assert_eq!(floor_log2_u128(3), 1);
    assert_eq!(floor_log2_u128(364451), 18);
    assert_eq!(floor_log2_u128((1 << 40) - 1), 39);
    assert_eq!(floor_log2_u128(1 << 40), 40);
    assert_eq!(floor_log2_u128(u128::MAX), 127);
}

#[test]
fn bet_interval_from_balances() {
    let rent = 890880;
    assert_eq!(bet_interval(10_000_000_000, 100_000_000_000, rent, 20000, 1000), Ok((18, 30)));
    assert_eq!(bet_interval(10_000_000_000, 1_000_000_000, rent, 20000, 1000), Ok((18, 23)));
    assert_eq!(bet_interval(2_000_000, 100_000_000_000, rent, 20000, 1000), Ok((18, 20)));
    assert_eq!(
        bet_interval(1_000_000_000_000, 1_000_000_000_000, rent, 1_400_000, 50000),
        Ok((22, 33))
    );
}

#[test]
fn bet_interval_errors() {
    let rent = 890880;
    assert_eq!(
        bet_interval(10_000_000_000, 1_000_000, rent, 20000, 1000),
        Err(BetIntervalError::BankTooPoor)
    );
    assert_eq!(
        bet_interval(1_000_000, 100_000_000_000, rent, 20000, 1000),
        Err(BetIntervalError::PlayerTooPoor)
    );
    assert_eq!(
        bet_interval(100_000, 100_000_000_000, rent, 20000, 1000),
        Err(BetIntervalError::PlayerTooPoor)
    );
    assert_eq!(
        bet_interval(10_000_000_000, 1_265_856, rent, 20000, 1000),
        Err(BetIntervalError::NoValidInterval)
    );
}
