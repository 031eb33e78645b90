use vstd::prelude::*;
use crate::identity::Identity;
use crate::prize::{prize_of, WinnerEntry};

verus! {

/// Where a pool stands in its lifecycle.
#[derive(Clone, Copy, Debug, PartialEq, Eq, Structural)]
pub enum PoolStatus {
    /// Accepts distributions and a close.
    Open,
    /// Terminal: accepts nothing more.
    Closed,
}

/// The persisted record of one pool.
#[derive(Debug, PartialEq, Eq)]
pub struct PrizePool {
    /// The only identity that may distribute from or close the pool.
    pub authority: Identity,
    /// The period the pool serves; its key among the pools.
    pub week_id: String,
    /// What has been paid out so far.
    pub total_distributed: u64,
    /// The seed byte of the pool's delegated signing authority, handed to the
    /// custody with each transfer.
    pub bump: u8,
    pub status: PoolStatus,
}

/// A pool record as a mathematical value.
pub struct PoolView {
    pub authority: Identity,
    pub week_id: Seq<char>,
    pub total_distributed: u64,
    pub bump: u8,
    pub status: PoolStatus,
}

impl View for PrizePool {
    type V = PoolView;

    open spec fn view(&self) -> PoolView {
        PoolView {
            authority: self.authority,
            week_id: self.week_id@,
            total_distributed: self.total_distributed,
            bump: self.bump,
            status: self.status,
        }
    }
}

/// The audit record of one payout.
#[derive(Debug, PartialEq, Eq)]
pub struct PrizeDistributed {
    pub winner: Identity,
    pub rank: u8,
    pub score: u8,
    pub amount: u64,
    pub week_id: String,
}

/// `e` records paying `amount` to the winner `w` out of the pool `week_id`.
pub open spec fn records_payout(
    e: PrizeDistributed,
    w: WinnerEntry,
    amount: nat,
    week_id: Seq<char>,
) -> bool {
    &&& e.winner == w.wallet
    &&& e.rank == w.rank
    &&& e.score == w.score
    &&& e.amount == amount
    &&& e.week_id@ == week_id
}

/// `events` holds, in batch order, one record for each winner of `winners`
/// whose prize out of `available` is not zero.
pub open spec fn payout_records(
    events: Seq<PrizeDistributed>,
    winners: Seq<WinnerEntry>,
    available: u64,
    week_id: Seq<char>,
) -> bool
    decreases winners.len(),
{
    if winners.len() == 0 {
        events.len() == 0
    } else {
        let w = winners.last();
        let amount = prize_of(w.rank, available);
        if amount == 0 {
            payout_records(events, winners.drop_last(), available, week_id)
        } else {
            &&& events.len() > 0
            &&& records_payout(events.last(), w, amount, week_id)
            &&& payout_records(events.drop_last(), winners.drop_last(), available, week_id)
        }
    }
}

} // verus!
