use vstd::prelude::*;
use crate::identity::Identity;

verus! {

/// Why an operation on a prize pool was refused.
#[derive(Clone, Copy, Debug, PartialEq, Eq, Structural)]
pub enum ErrorCode {
    /// The caller is not the pool's authority.
    Unauthorized,
    /// A winner's rank lies outside 1 to 10.
    InvalidRank,
    /// A winner's score is below the minimum.
    ScoreTooLow,
    /// The pool holds nothing to distribute.
    InsufficientFunds,
    /// A pool that is still open already uses this period id.
    AlreadyExists,
    /// The custody rejected a transfer, or could not cover the batch.
    CustodyFailure,
    /// No pool has this period id.
    PoolNotFound,
    /// The pool has been closed; it takes no further operation.
    PoolClosed,
    /// The period id is longer than a pool key may be.
    WeekIdTooLong,
    /// The running total of distributed prizes would pass `u64::MAX`.
    ArithmeticOverflow,
}

/// One candidate winner of a batch.
#[derive(Clone, Copy, Debug, PartialEq, Eq)]
pub struct WinnerEntry {
    pub wallet: Identity,
    pub rank: u8,
    pub score: u8,
}

/// Lowest eligible rank.
pub const MIN_RANK: u8 = 1;

/// Highest eligible rank.
pub const MAX_RANK: u8 = 10;

/// Lowest eligible score.
pub const MIN_SCORE: u8 = 80;

/// The tiered schedule: rank 1 takes half of `total`, rank 2 a fifth, rank 3
/// a tenth, and ranks 4 to 10 share a fifth evenly; every division truncates.
pub open spec fn prize_of(rank: u8, total: u64) -> nat {
    if rank == 1 {
        (total * 50 / 100) as nat
    } else if rank == 2 {
        (total * 20 / 100) as nat
    } else if rank == 3 {
        (total * 10 / 100) as nat
    } else if 4 <= rank <= 10 {
        (total * 20 / 100 / 7) as nat
    } else {
        0
    }
}

/// The prize for `rank` out of a pool holding `total`.
pub fn calculate_prize(rank: u8, total: u64) -> (r: u64)
    ensures
        r == prize_of(rank, total),
        r <= total,
        !(1 <= rank <= 10) ==> r == 0,
{
    let t: u128 = total as u128;
    if rank == 1 {
        assert(t * 50 / 100 <= t) by (nonlinear_arith);
        (t * 50 / 100) as u64
    } else if rank == 2 {
        assert(t * 20 / 100 <= t) by (nonlinear_arith);
        (t * 20 / 100) as u64
    } else if rank == 3 {
        assert(t * 10 / 100 <= t) by (nonlinear_arith);
        (t * 10 / 100) as u64
    } else if 4 <= rank && rank <= 10 {
        assert(t * 20 / 100 / 7 <= t) by (nonlinear_arith);
        (t * 20 / 100 / 7) as u64
    } else {
        0
    }
}

/// Why `w` is not eligible, if it is not: the rank is checked first.
pub open spec fn entry_check(w: WinnerEntry) -> Result<(), ErrorCode> {
    if !(MIN_RANK <= w.rank <= MAX_RANK) {
        Err(ErrorCode::InvalidRank)
    } else if w.score < MIN_SCORE {
        Err(ErrorCode::ScoreTooLow)
    } else {
        Ok(())
    }
}

/// The verdict on a batch: the error of its first ineligible entry, if any.
pub open spec fn batch_check(s: Seq<WinnerEntry>) -> Result<(), ErrorCode>
    decreases s.len(),
{
    if s.len() == 0 {
        Ok(())
    } else {
        match batch_check(s.drop_last()) {
            Err(e) => Err(e),
            Ok(()) => entry_check(s.last()),
        }
    }
}

/// Checks every entry of a batch before anything is paid.
pub fn validate_winners(winners: &Vec<WinnerEntry>) -> (r: Result<(), ErrorCode>)
    ensures
        r == batch_check(winners@),
{
    let mut i: usize = 0;
    while i < winners.len()
        invariant
            0 <= i <= winners@.len(),
            batch_check(winners@.take(i as int)) == Ok::<(), ErrorCode>(()),
        decreases winners@.len() - i,
    {
        assert(winners@.take(i + 1).drop_last() == winners@.take(i as int));
        let w = winners[i];
        if w.rank < MIN_RANK || w.rank > MAX_RANK {
            proof { lemma_batch_check_prefix_err(winners@, i + 1); }
            return Err(ErrorCode::InvalidRank);
        }
        if w.score < MIN_SCORE {
            proof { lemma_batch_check_prefix_err(winners@, i + 1); }
            return Err(ErrorCode::ScoreTooLow);
        }
        i = i + 1;
    }
    assert(winners@.take(i as int) == winners@);
    Ok(())
}

/// A failure found in a prefix is the failure of the whole batch.
proof fn lemma_batch_check_prefix_err(s: Seq<WinnerEntry>, n: int)
    requires
        0 <= n <= s.len(),
        batch_check(s.take(n)) is Err,
    ensures
        batch_check(s) == batch_check(s.take(n)),
    decreases s.len() - n,
{
    if n < s.len() {
        assert(s.take(n + 1).drop_last() == s.take(n));
        lemma_batch_check_prefix_err(s, n + 1);
    } else {
        assert(s.take(n) == s);
    }
}


/// The sum of the prizes that a batch asks for out of a pool holding `total`.
pub open spec fn batch_total(s: Seq<WinnerEntry>, total: u64) -> nat
    decreases s.len(),
{
    if s.len() == 0 {
        0
    } else {
        batch_total(s.drop_last(), total) + prize_of(s.last().rank, total)
    }
}

/// No two entries of the batch hold the same rank.
pub open spec fn ranks_distinct(s: Seq<WinnerEntry>) -> bool {
    forall|i: int, j: int| 0 <= i < j < s.len() ==> s[i].rank != s[j].rank
}

/// The prizes of the ranks 1 to `k` that lie in `ranks`, added up.
spec fn tier_sum(ranks: Set<u8>, total: u64, k: nat) -> nat
    decreases k,
{
    if k == 0 {
        0
    } else {
        tier_sum(ranks, total, (k - 1) as nat) + if ranks.contains(k as u8) {
            prize_of(k as u8, total)
        } else {
            0
        }
    }
}

proof fn lemma_tier_sum_remove(ranks: Set<u8>, r: u8, total: u64, k: nat)
    requires
        k <= 10,
        1 <= r,
        ranks.contains(r),
    ensures
        r <= k ==> tier_sum(ranks, total, k) == tier_sum(ranks.remove(r), total, k) + prize_of(
            r,
            total,
        ),
        r > k ==> tier_sum(ranks, total, k) == tier_sum(ranks.remove(r), total, k),
    decreases k,
{
    if k > 0 {
        lemma_tier_sum_remove(ranks, r, total, (k - 1) as nat);
    }
}

proof fn lemma_tier_sum_le_schedule(ranks: Set<u8>, total: u64, k: nat)
    requires
        k <= 10,
    ensures
        tier_sum(ranks, total, k) <= tier_sum(Set::new(|r: u8| true), total, k),
    decreases k,
{
    if k > 0 {
        lemma_tier_sum_le_schedule(ranks, total, (k - 1) as nat);
    }
}

/// The whole schedule, ranks 1 to 10 together, never pays more than the pool.
proof fn lemma_schedule_within_total(total: u64)
    ensures
        tier_sum(Set::new(|r: u8| true), total, 10) <= total,
{
    let all = Set::new(|r: u8| true);
    reveal_with_fuel(tier_sum, 11);
    let t = total as int;
    let a = t * 50 / 100;
    let b = t * 20 / 100;
    let c = t * 10 / 100;
    let d = b / 7;
    assert(a * 100 <= t * 50) by (nonlinear_arith)
        requires
            a == t * 50 / 100,
            t >= 0,
    ;
    assert(b * 100 <= t * 20) by (nonlinear_arith)
        requires
            b == t * 20 / 100,
            t >= 0,
    ;
    assert(c * 100 <= t * 10) by (nonlinear_arith)
        requires
            c == t * 10 / 100,
            t >= 0,
    ;
    assert(d * 7 <= b) by (nonlinear_arith)
        requires
            d == b / 7,
            b >= 0,
    ;
    assert(tier_sum(all, total, 10) == a + b + c + 7 * d);
}

/// Every entry of a batch that passes the checks holds a rank from 1 to 10.
proof fn lemma_checked_ranks(s: Seq<WinnerEntry>)
    requires
        batch_check(s) is Ok,
    ensures
        forall|i: int| 0 <= i < s.len() ==> 1 <= #[trigger] s[i].rank <= 10,
    decreases s.len(),
{
    if s.len() > 0 {
        lemma_checked_ranks(s.drop_last());
        assert forall|i: int| 0 <= i < s.len() implies 1 <= #[trigger] s[i].rank <= 10 by {
            if i < s.len() - 1 {
                assert(s[i] == s.drop_last()[i]);
            }
        }
    }
}

proof fn lemma_batch_within_ranks(s: Seq<WinnerEntry>, ranks: Set<u8>, total: u64)
    requires
        ranks_distinct(s),
        forall|i: int| 0 <= i < s.len() ==> ranks.contains(#[trigger] s[i].rank),
        forall|r: u8| ranks.contains(r) ==> 1 <= r <= 10,
    ensures
        batch_total(s, total) <= tier_sum(ranks, total, 10),
    decreases s.len(),
{
    if s.len() > 0 {
        let r = s.last().rank;
        let rest = s.drop_last();
        assert forall|i: int| 0 <= i < rest.len() implies ranks.remove(r).contains(
            #[trigger] rest[i].rank,
        ) by {
            assert(rest[i] == s[i]);
            assert(s[i].rank != s[s.len() - 1].rank);
        }
        lemma_batch_within_ranks(rest, ranks.remove(r), total);
        lemma_tier_sum_remove(ranks, r, total, 10);
    }
}

/// A batch that passes the checks, with no rank repeated, asks in all for no
/// more than the pool holds when the prizes are computed.
pub proof fn lemma_valid_batch_within_pool(winners: Seq<WinnerEntry>, available: u64)
    requires
        batch_check(winners) is Ok,
        ranks_distinct(winners),
    ensures
        batch_total(winners, available) <= available,
{
    let ranks = Set::new(|r: u8| 1 <= r <= 10);
    lemma_checked_ranks(winners);
    lemma_batch_within_ranks(winners, ranks, available);
    lemma_tier_sum_le_schedule(ranks, available, 10);
    lemma_schedule_within_total(available);
}

} // verus!
