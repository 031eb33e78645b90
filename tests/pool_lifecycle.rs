use pardon_prizes::registry::{
    close_prize_pool, distribute_prizes, initialize_prize_pool, plan_close, plan_distribution,
    PoolRegistry,
};
use pardon_prizes::{ErrorCode, Identity, PoolStatus, WinnerEntry};

fn who(tag: u8) -> Identity {
    Identity::new([tag; 32])
}

fn entry(tag: u8, rank: u8, score: u8) -> WinnerEntry {
    WinnerEntry { wallet: who(tag), rank, score }
}

fn week() -> String {
    "2024-W01".to_string()
}

fn opened() -> PoolRegistry {
    let mut reg = PoolRegistry::new();
    assert_eq!(initialize_prize_pool(&mut reg, week(), who(7), 254), Ok(()));
    reg
}

fn total(reg: &PoolRegistry) -> u64 {
    reg.get(&week()).unwrap().total_distributed
}

#[test]
fn open_creates_empty_open_pool() {
    let reg = opened();
    let pool = reg.get(&week()).unwrap();
    assert_eq!(pool.total_distributed, 0);
    assert_eq!(pool.status, PoolStatus::Open);
    assert_eq!(pool.bump, 254);
    assert!(pool.authority.same_as(&who(7)));
    assert_eq!(pool.week_id, week());
    assert!(reg.get(&"other".to_string()).is_none());
}

#[test]
fn open_twice_fails() {
    let mut reg = opened();
    assert_eq!(initialize_prize_pool(&mut reg, week(), who(8), 1), Err(ErrorCode::AlreadyExists));
    assert!(reg.get(&week()).unwrap().authority.same_as(&who(7)));
    assert_eq!(initialize_prize_pool(&mut reg, "2024-W02".to_string(), who(8), 1), Ok(()));
}

#[test]
fn reopen_after_close() {
    let mut reg = opened();
    assert_eq!(close_prize_pool(&mut reg, &week(), who(7), 0, false), Ok(0));
    assert_eq!(initialize_prize_pool(&mut reg, week(), who(9), 3), Ok(()));
    let pool = reg.get(&week()).unwrap();
    assert_eq!(pool.status, PoolStatus::Open);
    assert!(pool.authority.same_as(&who(9)));
}

#[test]
fn long_week_id_is_refused() {
    let mut reg = PoolRegistry::new();
    let long = "x".repeat(33);
    assert_eq!(initialize_prize_pool(&mut reg, long.clone(), who(7), 1), Err(ErrorCode::WeekIdTooLong));
    assert!(reg.get(&long).is_none());
    assert_eq!(initialize_prize_pool(&mut reg, "x".repeat(32), who(7), 1), Ok(()));
    // Two bytes per character: 17 characters are 34 bytes.
    assert_eq!(initialize_prize_pool(&mut reg, "é".repeat(17), who(7), 1), Err(ErrorCode::WeekIdTooLong));
}

#[test]
fn distribute_pays_full_schedule() {
    let mut reg = opened();
    let batch: Vec<WinnerEntry> = (1..=10u8).map(|r| entry(r, r, 90)).collect();
    let planned = plan_distribution(&reg, &week(), who(7), 1000, &batch).unwrap();
    assert_eq!(planned.len(), 10);
    let events = distribute_prizes(&mut reg, &week(), who(7), 1000, &batch, true).unwrap();
    let amounts: Vec<u64> = events.iter().map(|e| e.amount).collect();
    assert_eq!(amounts, vec![500, 200, 100, 28, 28, 28, 28, 28, 28, 28]);
    assert!(amounts.iter().sum::<u64>() <= 1000);
    assert_eq!(total(&reg), 996);
    for (i, e) in events.iter().enumerate() {
        assert_eq!(e.rank as usize, i + 1);
        assert_eq!(e.score, 90);
        assert!(e.winner.same_as(&who(i as u8 + 1)));
        assert_eq!(e.week_id, week());
    }
}

#[test]
fn zero_prizes_emit_no_event() {
    let mut reg = opened();
    let batch = vec![entry(1, 1, 90), entry(2, 4, 90)];
    let events = distribute_prizes(&mut reg, &week(), who(7), 3, &batch, true).unwrap();
    assert_eq!(events.len(), 1);
    assert_eq!(events[0].amount, 1);
    assert_eq!(total(&reg), 1);
}

#[test]
fn invalid_rank_refuses_whole_batch() {
    let mut reg = opened();
    let batch = vec![entry(1, 1, 90), entry(2, 11, 90), entry(3, 2, 90)];
    assert_eq!(distribute_prizes(&mut reg, &week(), who(7), 1000, &batch, true), Err(ErrorCode::InvalidRank));
    assert_eq!(total(&reg), 0);
}

#[test]
fn low_score_refuses_whole_batch() {
    let mut reg = opened();
    let batch = vec![entry(1, 1, 90), entry(2, 2, 10)];
    assert_eq!(distribute_prizes(&mut reg, &week(), who(7), 1000, &batch, true), Err(ErrorCode::ScoreTooLow));
    assert_eq!(total(&reg), 0);
}

#[test]
fn stranger_cannot_distribute() {
    let mut reg = opened();
    let batch = vec![entry(1, 1, 90)];
    assert_eq!(plan_distribution(&reg, &week(), who(8), 1000, &batch), Err(ErrorCode::Unauthorized));
    assert_eq!(distribute_prizes(&mut reg, &week(), who(8), 1000, &batch, true), Err(ErrorCode::Unauthorized));
    assert_eq!(total(&reg), 0);
}

#[test]
fn stranger_cannot_close() {
    let mut reg = opened();
    assert_eq!(plan_close(&reg, &week(), who(8), 50), Err(ErrorCode::Unauthorized));
    assert_eq!(close_prize_pool(&mut reg, &week(), who(8), 50, true), Err(ErrorCode::Unauthorized));
    assert_eq!(reg.get(&week()).unwrap().status, PoolStatus::Open);
}

#[test]
fn empty_pool_cannot_distribute() {
    let mut reg = opened();
    let batch = vec![entry(1, 1, 90)];
    assert_eq!(distribute_prizes(&mut reg, &week(), who(7), 0, &batch, true), Err(ErrorCode::InsufficientFunds));
}

#[test]
fn unknown_pool_is_not_found() {
    let mut reg = opened();
    let other = "nope".to_string();
    assert_eq!(distribute_prizes(&mut reg, &other, who(7), 10, &Vec::new(), true), Err(ErrorCode::PoolNotFound));
    assert_eq!(close_prize_pool(&mut reg, &other, who(7), 0, true), Err(ErrorCode::PoolNotFound));
}

#[test]
fn failed_transfers_change_nothing() {
    let mut reg = opened();
    let batch = vec![entry(1, 1, 90)];
    assert_eq!(distribute_prizes(&mut reg, &week(), who(7), 1000, &batch, false), Err(ErrorCode::CustodyFailure));
    assert_eq!(total(&reg), 0);
}

#[test]
fn batch_beyond_balance_fails() {
    let mut reg = opened();
    let batch = vec![entry(1, 1, 90), entry(2, 1, 90), entry(3, 1, 90)];
    assert_eq!(plan_distribution(&reg, &week(), who(7), 1000, &batch), Err(ErrorCode::CustodyFailure));
    assert_eq!(distribute_prizes(&mut reg, &week(), who(7), 1000, &batch, true), Err(ErrorCode::CustodyFailure));
    assert_eq!(total(&reg), 0);
    let pair = vec![entry(1, 1, 90), entry(2, 1, 90)];
    assert_eq!(distribute_prizes(&mut reg, &week(), who(7), 1000, &pair, true).unwrap().len(), 2);
    assert_eq!(total(&reg), 1000);
}

#[test]
fn total_overflow_is_refused() {
    let mut reg = opened();
    let batch = vec![entry(1, 1, 90), entry(2, 2, 90)];
    let paid = u64::MAX / 2 + ((u64::MAX as u128) * 20 / 100) as u64;
    assert!(distribute_prizes(&mut reg, &week(), who(7), u64::MAX, &batch, true).is_ok());
    assert_eq!(total(&reg), paid);
    assert_eq!(distribute_prizes(&mut reg, &week(), who(7), u64::MAX, &batch, true), Err(ErrorCode::ArithmeticOverflow));
    assert_eq!(total(&reg), paid);
}

#[test]
fn total_never_decreases() {
    let mut reg = opened();
    let mut last = total(&reg);
    let rounds = [(1000u64, 1u8, true), (500, 2, true), (0, 3, true), (800, 11, true), (800, 1, false), (40, 4, true)];
    for (available, rank, done) in rounds {
        let _ = distribute_prizes(&mut reg, &week(), who(7), available, &vec![entry(1, rank, 90)], done);
        let now = total(&reg);
        assert!(now >= last);
        last = now;
    }
    assert_eq!(last, 500 + 100 + 1);
}

#[test]
fn close_refunds_everything_and_is_final() {
    let mut reg = opened();
    assert_eq!(plan_close(&reg, &week(), who(7), 123), Ok(123));
    assert_eq!(close_prize_pool(&mut reg, &week(), who(7), 123, true), Ok(123));
    assert_eq!(reg.get(&week()).unwrap().status, PoolStatus::Closed);
    assert_eq!(close_prize_pool(&mut reg, &week(), who(7), 0, true), Err(ErrorCode::PoolClosed));
    let batch = vec![entry(1, 1, 90)];
    assert_eq!(distribute_prizes(&mut reg, &week(), who(7), 10, &batch, true), Err(ErrorCode::PoolClosed));
}

#[test]
fn close_without_refund_keeps_pool_open() {
    let mut reg = opened();
    assert_eq!(close_prize_pool(&mut reg, &week(), who(7), 5, false), Err(ErrorCode::CustodyFailure));
    assert_eq!(reg.get(&week()).unwrap().status, PoolStatus::Open);
    assert_eq!(close_prize_pool(&mut reg, &week(), who(7), 0, false), Ok(0));
}

#[test]
fn registry_from_stored_record() {
    let record = pardon_prizes::PrizePool {
        authority: who(7),
        week_id: week(),
        total_distributed: 40,
        bump: 9,
        status: PoolStatus::Open,
    };
    let mut reg = PoolRegistry::with_pool(record);
    assert_eq!(total(&reg), 40);
    let batch = vec![entry(1, 3, 80)];
    assert_eq!(distribute_prizes(&mut reg, &week(), who(7), 100, &batch, true).unwrap()[0].amount, 10);
    assert_eq!(total(&reg), 50);
}

#[test]
fn identities_compare_by_bytes() {
    let mut bytes = [5u8; 32];
    assert!(Identity::new(bytes).same_as(&who(5)));
    bytes[31] = 6;
    assert!(!Identity::new(bytes).same_as(&who(5)));
    assert!(!who(5).same_as(&who(6)));
}
