use vstd::prelude::*;
use vstd::utf8::encode_utf8;
use crate::identity::Identity;
use crate::pool::{payout_records, PoolStatus, PoolView, PrizeDistributed, PrizePool};
use crate::prize::{
    batch_check, batch_total, calculate_prize, entry_check, validate_winners, ErrorCode,
    WinnerEntry,
};

verus! {

/// The longest period id, in UTF-8 bytes, that can key a pool.
pub const MAX_WEEK_ID_BYTES: usize = 32;

/// The pools, keyed by period id; a closed pool stays, as a terminal record,
/// until a new pool is opened for its period.
pub struct PoolRegistry {
    pools: Vec<PrizePool>,
}

/// The map from period id to pool that a list of records stands for.
pub open spec fn pools_map(s: Seq<PrizePool>) -> Map<Seq<char>, PoolView>
    decreases s.len(),
{
    if s.len() == 0 {
        Map::empty()
    } else {
        pools_map(s.drop_last()).insert(s.last().week_id@, s.last()@)
    }
}

/// No two records share a period id.
pub open spec fn keys_unique(s: Seq<PrizePool>) -> bool {
    forall|i: int, j: int| 0 <= i < j < s.len() ==> s[i].week_id@ != s[j].week_id@
}

impl View for PoolRegistry {
    type V = Map<Seq<char>, PoolView>;

    closed spec fn view(&self) -> Map<Seq<char>, PoolView> {
        pools_map(self.pools@)
    }
}

proof fn lemma_pools_map_keys(s: Seq<PrizePool>, id: Seq<char>)
    ensures
        pools_map(s).contains_key(id) <==> exists|i: int| 0 <= i < s.len() && s[i].week_id@ == id,
    decreases s.len(),
{
    if s.len() > 0 {
        lemma_pools_map_keys(s.drop_last(), id);
        if pools_map(s.drop_last()).contains_key(id) {
            let i = choose|i: int| 0 <= i < s.len() - 1 && s.drop_last()[i].week_id@ == id;
            assert(s[i] == s.drop_last()[i]);
        }
        if exists|i: int| 0 <= i < s.len() && s[i].week_id@ == id {
            let i = choose|i: int| 0 <= i < s.len() && s[i].week_id@ == id;
            if i < s.len() - 1 {
                assert(s[i] == s.drop_last()[i]);
            }
        }
    }
}

proof fn lemma_pools_map_at(s: Seq<PrizePool>, i: int)
    requires
        keys_unique(s),
        0 <= i < s.len(),
    ensures
        pools_map(s).contains_key(s[i].week_id@),
        pools_map(s)[s[i].week_id@] == s[i]@,
    decreases s.len(),
{
    if i < s.len() - 1 {
        assert(s[i] == s.drop_last()[i]);
        lemma_pools_map_at(s.drop_last(), i);
    }
}

proof fn lemma_pools_map_update(s: Seq<PrizePool>, i: int, p: PrizePool)
    requires
        keys_unique(s),
        0 <= i < s.len(),
        p.week_id@ == s[i].week_id@,
    ensures
        keys_unique(s.update(i, p)),
        pools_map(s.update(i, p)) == pools_map(s).insert(p.week_id@, p@),
    decreases s.len(),
{
    let t = s.update(i, p);
    assert(keys_unique(t)) by {
        assert forall|a: int, b: int| 0 <= a < b < t.len() implies t[a].week_id@ != t[b].week_id@ by {
            assert(t[a].week_id@ == s[a].week_id@);
            assert(t[b].week_id@ == s[b].week_id@);
        }
    }
    if i == s.len() - 1 {
        assert(t.drop_last() == s.drop_last());
        lemma_pools_map_keys(s.drop_last(), p.week_id@);
        assert(pools_map(s).insert(p.week_id@, p@) =~= pools_map(s.drop_last()).insert(
            p.week_id@,
            p@,
        ));
    } else {
        assert(t.drop_last() == s.drop_last().update(i, p));
        lemma_pools_map_update(s.drop_last(), i, p);
        assert(s.last().week_id@ != p.week_id@);
        assert(pools_map(t) =~= pools_map(s).insert(p.week_id@, p@));
    }
}

/// What opening a pool for `week_id` comes to.
pub open spec fn open_result(m: Map<Seq<char>, PoolView>, week_id: Seq<char>) -> Result<
    (),
    ErrorCode,
> {
    if encode_utf8(week_id).len() > MAX_WEEK_ID_BYTES {
        Err(ErrorCode::WeekIdTooLong)
    } else if m.contains_key(week_id) && m[week_id].status == PoolStatus::Open {
        Err(ErrorCode::AlreadyExists)
    } else {
        Ok(())
    }
}

/// A freshly opened pool.
pub open spec fn new_pool(week_id: Seq<char>, authority: Identity, bump: u8) -> PoolView {
    PoolView { authority, week_id, total_distributed: 0, bump, status: PoolStatus::Open }
}

/// The pools after opening one for `week_id`.
pub open spec fn after_open(
    m: Map<Seq<char>, PoolView>,
    week_id: Seq<char>,
    authority: Identity,
    bump: u8,
) -> Map<Seq<char>, PoolView> {
    if open_result(m, week_id) is Ok {
        m.insert(week_id, new_pool(week_id, authority, bump))
    } else {
        m
    }
}

/// The checks shared by distributing and closing: the pool exists, is open,
/// and `caller` is its authority.
pub open spec fn access_result(
    m: Map<Seq<char>, PoolView>,
    week_id: Seq<char>,
    caller: Identity,
) -> Result<(), ErrorCode> {
    if !m.contains_key(week_id) {
        Err(ErrorCode::PoolNotFound)
    } else if m[week_id].status == PoolStatus::Closed {
        Err(ErrorCode::PoolClosed)
    } else if caller.key() != m[week_id].authority.key() {
        Err(ErrorCode::Unauthorized)
    } else {
        Ok(())
    }
}

/// The verdict on a distribution before any transfer: the amount to pay out
/// in all, or why nothing may be paid.
pub open spec fn distribution_plan(
    m: Map<Seq<char>, PoolView>,
    week_id: Seq<char>,
    caller: Identity,
    available: u64,
    winners: Seq<WinnerEntry>,
) -> Result<u64, ErrorCode> {
    if access_result(m, week_id, caller) is Err {
        Err(access_result(m, week_id, caller)->Err_0)
    } else if available == 0 {
        Err(ErrorCode::InsufficientFunds)
    } else if batch_check(winners) is Err {
        Err(batch_check(winners)->Err_0)
    } else if batch_total(winners, available) > available {
        Err(ErrorCode::CustodyFailure)
    } else if m[week_id].total_distributed + batch_total(winners, available) > u64::MAX {
        Err(ErrorCode::ArithmeticOverflow)
    } else {
        Ok(batch_total(winners, available) as u64)
    }
}

/// What a distribution comes to once the custody has answered: the amount
/// paid out in all, or why nothing was.
pub open spec fn distribute_result(
    m: Map<Seq<char>, PoolView>,
    week_id: Seq<char>,
    caller: Identity,
    available: u64,
    winners: Seq<WinnerEntry>,
    transfers_done: bool,
) -> Result<u64, ErrorCode> {
    match distribution_plan(m, week_id, caller, available, winners) {
        Err(e) => Err(e),
        Ok(paid) => if transfers_done {
            Ok(paid)
        } else {
            Err(ErrorCode::CustodyFailure)
        },
    }
}

/// The pools after a distribution: only a successful one changes them, by
/// adding what it paid to the pool's total.
pub open spec fn after_distribute(
    m: Map<Seq<char>, PoolView>,
    week_id: Seq<char>,
    caller: Identity,
    available: u64,
    winners: Seq<WinnerEntry>,
    transfers_done: bool,
) -> Map<Seq<char>, PoolView> {
    match distribute_result(m, week_id, caller, available, winners, transfers_done) {
        Err(_) => m,
        Ok(paid) => {
            let p = m[week_id];
            m.insert(
                week_id,
                PoolView {
                    authority: p.authority,
                    week_id: p.week_id,
                    total_distributed: (p.total_distributed + paid) as u64,
                    bump: p.bump,
                    status: p.status,
                },
            )
        },
    }
}

/// What closing a pool comes to once the custody has answered: the refund
/// sent back to the authority, which is all that `remaining` held, or why
/// the pool was not closed.
pub open spec fn close_result(
    m: Map<Seq<char>, PoolView>,
    week_id: Seq<char>,
    caller: Identity,
    remaining: u64,
    refund_done: bool,
) -> Result<u64, ErrorCode> {
    if access_result(m, week_id, caller) is Err {
        Err(access_result(m, week_id, caller)->Err_0)
    } else if remaining > 0 && !refund_done {
        Err(ErrorCode::CustodyFailure)
    } else {
        Ok(remaining)
    }
}

/// The pools after a close: only a successful one changes them, by marking
/// the pool closed.
pub open spec fn after_close(
    m: Map<Seq<char>, PoolView>,
    week_id: Seq<char>,
    caller: Identity,
    remaining: u64,
    refund_done: bool,
) -> Map<Seq<char>, PoolView> {
    if close_result(m, week_id, caller, remaining, refund_done) is Ok {
        let p = m[week_id];
        m.insert(
            week_id,
            PoolView {
                authority: p.authority,
                week_id: p.week_id,
                total_distributed: p.total_distributed,
                bump: p.bump,
                status: PoolStatus::Closed,
            },
        )
    } else {
        m
    }
}

impl PoolRegistry {
    /// The registry's records are keyed uniquely.
    pub closed spec fn wf(&self) -> bool {
        keys_unique(self.pools@)
    }

    /// An empty registry.
    pub fn new() -> (r: PoolRegistry)
        ensures
            r.wf(),
            r@ == Map::<Seq<char>, PoolView>::empty(),
    {
        PoolRegistry { pools: Vec::new() }
    }

    /// A registry holding one record, as stored elsewhere.
    pub fn with_pool(pool: PrizePool) -> (r: PoolRegistry)
        ensures
            r.wf(),
            r@ == Map::<Seq<char>, PoolView>::empty().insert(pool.week_id@, pool@),
    {
        let ghost p = pool;
        let mut pools: Vec<PrizePool> = Vec::new();
        pools.push(pool);
        assert(pools@.drop_last() == Seq::<PrizePool>::empty());
        assert(pools@.last() == p);
        assert(pools_map(Seq::<PrizePool>::empty()) == Map::<Seq<char>, PoolView>::empty());
        PoolRegistry { pools }
    }

    /// The index of the record for `week_id`, if there is one.
    fn find(&self, week_id: &String) -> (r: Option<usize>)
        requires
            self.wf(),
        ensures
            r is None ==> !self@.contains_key(week_id@),
            r is Some ==> r->Some_0 < self.pools@.len() && self.pools@[r->Some_0 as int].week_id@
                == week_id@ && self@.contains_key(week_id@) && self@[week_id@]
                == self.pools@[r->Some_0 as int]@,
    {
        let mut i: usize = 0;
        while i < self.pools.len()
            invariant
                0 <= i <= self.pools@.len(),
                self.wf(),
                forall|j: int| 0 <= j < i ==> self.pools@[j].week_id@ != week_id@,
            decreases self.pools@.len() - i,
        {
            if self.pools[i].week_id == *week_id {
                proof {
                    lemma_pools_map_at(self.pools@, i as int);
                }
                return Some(i);
            }
            i = i + 1;
        }
        proof {
            lemma_pools_map_keys(self.pools@, week_id@);
        }
        None
    }

    /// The record for `week_id`, if there is one.
    pub fn get(&self, week_id: &String) -> (r: Option<&PrizePool>)
        requires
            self.wf(),
        ensures
            r is Some <==> self@.contains_key(week_id@),
            r is Some ==> r->Some_0@ == self@[week_id@],
    {
        match self.find(week_id) {
            Some(i) => Some(&self.pools[i]),
            None => None,
        }
    }

    /// The index of the record for `week_id`, once the pool is found open and
    /// `caller` is its authority.
    fn check_access(&self, week_id: &String, caller: &Identity) -> (r: Result<usize, ErrorCode>)
        requires
            self.wf(),
        ensures
            access_result(self@, week_id@, *caller) is Err ==> r == Err::<usize, ErrorCode>(
                access_result(self@, week_id@, *caller)->Err_0,
            ),
            access_result(self@, week_id@, *caller) is Ok ==> r is Ok && r->Ok_0
                < self.pools@.len() && self.pools@[r->Ok_0 as int].week_id@ == week_id@
                && self@[week_id@] == self.pools@[r->Ok_0 as int]@,
    {
        let i = match self.find(week_id) {
            Some(i) => i,
            None => return Err(ErrorCode::PoolNotFound),
        };
        if self.pools[i].status == PoolStatus::Closed {
            return Err(ErrorCode::PoolClosed);
        }
        if !caller.same_as(&self.pools[i].authority) {
            return Err(ErrorCode::Unauthorized);
        }
        Ok(i)
    }

    /// Plans a distribution: the record's index, the amount to pay in all,
    /// and the payout records.
    fn plan(
        &self,
        week_id: &String,
        caller: Identity,
        available: u64,
        winners: &Vec<WinnerEntry>,
    ) -> (r: Result<(usize, u64, Vec<PrizeDistributed>), ErrorCode>)
        requires
            self.wf(),
        ensures
            distribution_plan(self@, week_id@, caller, available, winners@) is Err ==> r
                == Err::<(usize, u64, Vec<PrizeDistributed>), ErrorCode>(
                distribution_plan(self@, week_id@, caller, available, winners@)->Err_0,
            ),
            distribution_plan(self@, week_id@, caller, available, winners@) is Ok ==> {
                &&& r is Ok
                &&& r->Ok_0.0 < self.pools@.len()
                &&& self.pools@[r->Ok_0.0 as int].week_id@ == week_id@
                &&& self@[week_id@] == self.pools@[r->Ok_0.0 as int]@
                &&& r->Ok_0.1 == distribution_plan(self@, week_id@, caller, available, winners@)->Ok_0
                &&& payout_records(r->Ok_0.2@, winners@, available, week_id@)
            },
    {
        let idx = match self.check_access(week_id, &caller) {
            Ok(i) => i,
            Err(e) => return Err(e),
        };
        if available == 0 {
            return Err(ErrorCode::InsufficientFunds);
        }
        match validate_winners(winners) {
            Ok(()) => {},
            Err(e) => return Err(e),
        }
        let mut events: Vec<PrizeDistributed> = Vec::new();
        let mut paid: u64 = 0;
        let mut i: usize = 0;
        while i < winners.len()
            invariant
                0 <= i <= winners@.len(),
                access_result(self@, week_id@, caller) is Ok,
                available > 0,
                batch_check(winners@) is Ok,
                paid == batch_total(winners@.take(i as int), available),
                paid <= available,
                payout_records(events@, winners@.take(i as int), available, week_id@),
            decreases winners@.len() - i,
        {
            assert(winners@.take(i + 1).drop_last() == winners@.take(i as int));
            let w = winners[i];
            let amount = calculate_prize(w.rank, available);
            if amount > available - paid {
                proof {
                    lemma_batch_total_prefix(winners@, i + 1, available);
                }
                return Err(ErrorCode::CustodyFailure);
            }
            paid = paid + amount;
            if amount > 0 {
                let ghost before = events@;
                events.push(
                    PrizeDistributed {
                        winner: w.wallet,
                        rank: w.rank,
                        score: w.score,
                        amount,
                        week_id: week_id.clone(),
                    },
                );
                assert(events@.drop_last() == before);
            }
            i = i + 1;
        }
        assert(winners@.take(i as int) == winners@);
        if self.pools[idx].total_distributed > u64::MAX - paid {
            return Err(ErrorCode::ArithmeticOverflow);
        }
        Ok((idx, paid, events))
    }
}

/// What a prefix of a batch asks for is no more than the whole batch asks for.
proof fn lemma_batch_total_prefix(s: Seq<WinnerEntry>, n: int, total: u64)
    requires
        0 <= n <= s.len(),
    ensures
        batch_total(s.take(n), total) <= batch_total(s, total),
    decreases s.len() - n,
{
    if n < s.len() {
        assert(s.take(n + 1).drop_last() == s.take(n));
        lemma_batch_total_prefix(s, n + 1, total);
    } else {
        assert(s.take(n) == s);
    }
}

/// Opens a pool for `week_id` under `authority`. A closed pool of the same
/// period is replaced by the new one; an open one is kept and the call fails.
pub fn initialize_prize_pool(
    registry: &mut PoolRegistry,
    week_id: String,
    authority: Identity,
    bump: u8,
) -> (r: Result<(), ErrorCode>)
    requires
        old(registry).wf(),
    ensures
        final(registry).wf(),
        r == open_result(old(registry)@, week_id@),
        final(registry)@ == after_open(old(registry)@, week_id@, authority, bump),
{
    if week_id.as_str().as_bytes().len() > MAX_WEEK_ID_BYTES {
        return Err(ErrorCode::WeekIdTooLong);
    }
    let found = registry.find(&week_id);
    let ghost id = week_id@;
    let ghost before = registry.pools@;
    let pool = PrizePool {
        authority,
        week_id,
        total_distributed: 0,
        bump,
        status: PoolStatus::Open,
    };
    match found {
        Some(i) => {
            if registry.pools[i].status == PoolStatus::Open {
                return Err(ErrorCode::AlreadyExists);
            }
            registry.pools[i] = pool;
            proof {
                lemma_pools_map_update(before, i as int, registry.pools@[i as int]);
                assert(registry@ =~= after_open(old(registry)@, id, authority, bump));
            }
        },
        None => {
            proof {
                lemma_pools_map_keys(before, id);
            }
            registry.pools.push(pool);
            assert(registry.pools@.drop_last() == before);
            assert(registry@ =~= after_open(old(registry)@, id, authority, bump));
        },
    }
    Ok(())
}

/// Checks a distribution before any transfer is made: on success, the payouts
/// that the custody must carry out, in batch order.
pub fn plan_distribution(
    registry: &PoolRegistry,
    week_id: &String,
    caller: Identity,
    available: u64,
    winners: &Vec<WinnerEntry>,
) -> (r: Result<Vec<PrizeDistributed>, ErrorCode>)
    requires
        registry.wf(),
    ensures
        distribution_plan(registry@, week_id@, caller, available, winners@) is Err ==> r
            == Err::<Vec<PrizeDistributed>, ErrorCode>(
            distribution_plan(registry@, week_id@, caller, available, winners@)->Err_0,
        ),
        distribution_plan(registry@, week_id@, caller, available, winners@) is Ok ==> r is Ok
            && payout_records(r->Ok_0@, winners@, available, week_id@),
{
    match registry.plan(week_id, caller, available, winners) {
        Ok((_, _, events)) => Ok(events),
        Err(e) => Err(e),
    }
}

/// Records a distribution. `available` is the pool's balance when the batch
/// was planned, and `transfers_done` says whether the custody carried out
/// every payout of the plan. The batch is one unit: unless all is in order
/// and every transfer was made, the pool is left as it was.
pub fn distribute_prizes(
    registry: &mut PoolRegistry,
    week_id: &String,
    caller: Identity,
    available: u64,
    winners: &Vec<WinnerEntry>,
    transfers_done: bool,
) -> (r: Result<Vec<PrizeDistributed>, ErrorCode>)
    requires
        old(registry).wf(),
    ensures
        final(registry).wf(),
        final(registry)@ == after_distribute(
            old(registry)@,
            week_id@,
            caller,
            available,
            winners@,
            transfers_done,
        ),
        distribute_result(old(registry)@, week_id@, caller, available, winners@, transfers_done) is Err
            ==> r == Err::<Vec<PrizeDistributed>, ErrorCode>(
            distribute_result(
                old(registry)@,
                week_id@,
                caller,
                available,
                winners@,
                transfers_done,
            )->Err_0,
        ),
        distribute_result(old(registry)@, week_id@, caller, available, winners@, transfers_done) is Ok
            ==> r is Ok && payout_records(r->Ok_0@, winners@, available, week_id@),
{
    let (idx, paid, events) = match registry.plan(week_id, caller, available, winners) {
        Ok(planned) => planned,
        Err(e) => return Err(e),
    };
    if !transfers_done {
        return Err(ErrorCode::CustodyFailure);
    }
    let ghost before = registry.pools@;
    let total = registry.pools[idx].total_distributed + paid;
    registry.pools[idx].total_distributed = total;
    proof {
        lemma_pools_map_update(before, idx as int, registry.pools@[idx as int]);
        assert(registry@ =~= after_distribute(
            old(registry)@,
            week_id@,
            caller,
            available,
            winners@,
            transfers_done,
        ));
    }
    Ok(events)
}

/// Checks a close before the refund is made: on success, the amount to send
/// back to the authority, which is all of `remaining`.
pub fn plan_close(registry: &PoolRegistry, week_id: &String, caller: Identity, remaining: u64) -> (r:
    Result<u64, ErrorCode>)
    requires
        registry.wf(),
    ensures
        r == close_result(registry@, week_id@, caller, remaining, true),
{
    match registry.check_access(week_id, &caller) {
        Ok(_) => Ok(remaining),
        Err(e) => Err(e),
    }
}

/// Closes a pool. `remaining` is the pool's balance, and `refund_done` says
/// whether the custody sent all of it back to the authority. Unless all is in
/// order and nothing is left behind, the pool is left as it was; on success it
/// is closed for good and the refund is returned.
pub fn close_prize_pool(
    registry: &mut PoolRegistry,
    week_id: &String,
    caller: Identity,
    remaining: u64,
    refund_done: bool,
) -> (r: Result<u64, ErrorCode>)
    requires
        old(registry).wf(),
    ensures
        final(registry).wf(),
        r == close_result(old(registry)@, week_id@, caller, remaining, refund_done),
        final(registry)@ == after_close(old(registry)@, week_id@, caller, remaining, refund_done),
{
    let idx = match registry.check_access(week_id, &caller) {
        Ok(i) => i,
        Err(e) => return Err(e),
    };
    if remaining > 0 && !refund_done {
        return Err(ErrorCode::CustodyFailure);
    }
    let ghost before = registry.pools@;
    registry.pools[idx].status = PoolStatus::Closed;
    proof {
        lemma_pools_map_update(before, idx as int, registry.pools@[idx as int]);
        assert(registry@ =~= after_close(
            old(registry)@,
            week_id@,
            caller,
            remaining,
            refund_done,
        ));
    }
    Ok(remaining)
}

/// A batch whose entries are all eligible passes the checks.
proof fn lemma_batch_check_all_eligible(s: Seq<WinnerEntry>)
    requires
        forall|i: int| 0 <= i < s.len() ==> #[trigger] entry_check(s[i]) is Ok,
    ensures
        batch_check(s) is Ok,
    decreases s.len(),
{
    if s.len() > 0 {
        assert forall|i: int| 0 <= i < s.len() - 1 implies #[trigger] entry_check(
            s.drop_last()[i],
        ) is Ok by {
            assert(s.drop_last()[i] == s[i]);
        }
        lemma_batch_check_all_eligible(s.drop_last());
    }
}

/// A batch with a single ineligible entry fails with that entry's error.
proof fn lemma_batch_check_single_fault(s: Seq<WinnerEntry>, k: int)
    requires
        0 <= k < s.len(),
        forall|i: int| 0 <= i < s.len() && i != k ==> #[trigger] entry_check(s[i]) is Ok,
    ensures
        batch_check(s) == entry_check(s[k]),
    decreases s.len(),
{
    let rest = s.drop_last();
    assert forall|i: int| 0 <= i < rest.len() && i != k implies #[trigger] entry_check(
        rest[i],
    ) is Ok by {
        assert(rest[i] == s[i]);
    }
    if k == s.len() - 1 {
        lemma_batch_check_all_eligible(rest);
    } else {
        assert(rest[k] == s[k]);
        lemma_batch_check_single_fault(rest, k);
        assert(entry_check(s.last()) is Ok);
        if entry_check(s[k]) is Ok {
            lemma_batch_check_all_eligible(s);
        }
    }
}

/// A batch that holds one entry with a rank outside 1 to 10, beside entries
/// that are all eligible, is refused as a whole with `InvalidRank` by an open
/// pool's authority, and the pools, the pool's total among them, stay as
/// they were.
pub proof fn lemma_invalid_rank_refuses_batch(
    m: Map<Seq<char>, PoolView>,
    week_id: Seq<char>,
    caller: Identity,
    available: u64,
    winners: Seq<WinnerEntry>,
    k: int,
    transfers_done: bool,
)
    requires
        access_result(m, week_id, caller) is Ok,
        available > 0,
        0 <= k < winners.len(),
        !(1 <= winners[k].rank <= 10),
        forall|i: int| 0 <= i < winners.len() && i != k ==> #[trigger] entry_check(winners[i]) is Ok,
    ensures
        distribute_result(m, week_id, caller, available, winners, transfers_done) == Err::<
            u64,
            ErrorCode,
        >(ErrorCode::InvalidRank),
        after_distribute(m, week_id, caller, available, winners, transfers_done) == m,
{
    lemma_batch_check_single_fault(winners, k);
}

/// An identity other than the authority of an open pool can neither
/// distribute from it nor close it: both fail with `Unauthorized` and leave
/// the pools as they were.
pub proof fn lemma_only_authority_acts(
    m: Map<Seq<char>, PoolView>,
    week_id: Seq<char>,
    caller: Identity,
    available: u64,
    winners: Seq<WinnerEntry>,
    transfers_done: bool,
    remaining: u64,
    refund_done: bool,
)
    requires
        m.contains_key(week_id),
        m[week_id].status == PoolStatus::Open,
        caller.key() != m[week_id].authority.key(),
    ensures
        distribute_result(m, week_id, caller, available, winners, transfers_done) == Err::<
            u64,
            ErrorCode,
        >(ErrorCode::Unauthorized),
        after_distribute(m, week_id, caller, available, winners, transfers_done) == m,
        close_result(m, week_id, caller, remaining, refund_done) == Err::<u64, ErrorCode>(
            ErrorCode::Unauthorized,
        ),
        after_close(m, week_id, caller, remaining, refund_done) == m,
{
}

/// A successful close refunds all that the pool held, leaving it empty, and
/// is final: the pool is marked closed, and every later close or distribution
/// on it fails with `PoolClosed`.
pub proof fn lemma_close_is_final(
    m: Map<Seq<char>, PoolView>,
    week_id: Seq<char>,
    caller: Identity,
    remaining: u64,
    refund_done: bool,
)
    requires
        close_result(m, week_id, caller, remaining, refund_done) is Ok,
    ensures
        remaining - close_result(m, week_id, caller, remaining, refund_done)->Ok_0 == 0,
        after_close(m, week_id, caller, remaining, refund_done).contains_key(week_id),
        after_close(m, week_id, caller, remaining, refund_done)[week_id].status
            == PoolStatus::Closed,
        forall|c: Identity, rem: u64, done: bool|
            #[trigger] close_result(
                after_close(m, week_id, caller, remaining, refund_done),
                week_id,
                c,
                rem,
                done,
            ) == Err::<u64, ErrorCode>(ErrorCode::PoolClosed),
        forall|c: Identity, avail: u64, ws: Seq<WinnerEntry>, done: bool|
            #[trigger] distribute_result(
                after_close(m, week_id, caller, remaining, refund_done),
                week_id,
                c,
                avail,
                ws,
                done,
            ) == Err::<u64, ErrorCode>(ErrorCode::PoolClosed),
{
}

/// The pools after a series of distributions on one pool, each given as its
/// caller, available balance, batch, and custody answer.
pub open spec fn after_distributions(
    m: Map<Seq<char>, PoolView>,
    week_id: Seq<char>,
    calls: Seq<(Identity, u64, Seq<WinnerEntry>, bool)>,
) -> Map<Seq<char>, PoolView>
    decreases calls.len(),
{
    if calls.len() == 0 {
        m
    } else {
        let c = calls.last();
        after_distribute(after_distributions(m, week_id, calls.drop_last()), week_id, c.0, c.1, c.2, c.3)
    }
}

/// A distribution never lowers a pool's total: a successful one adds what
/// it paid, any other leaves the pools as they were.
pub proof fn lemma_distribution_never_lowers_total(
    m: Map<Seq<char>, PoolView>,
    week_id: Seq<char>,
    caller: Identity,
    available: u64,
    winners: Seq<WinnerEntry>,
    transfers_done: bool,
)
    requires
        m.contains_key(week_id),
    ensures
        after_distribute(m, week_id, caller, available, winners, transfers_done).contains_key(
            week_id,
        ),
        after_distribute(m, week_id, caller, available, winners, transfers_done)[week_id].total_distributed
            >= m[week_id].total_distributed,
        distribute_result(m, week_id, caller, available, winners, transfers_done) is Ok ==> after_distribute(
            m,
            week_id,
            caller,
            available,
            winners,
            transfers_done,
        )[week_id].total_distributed == m[week_id].total_distributed + distribute_result(
            m,
            week_id,
            caller,
            available,
            winners,
            transfers_done,
        )->Ok_0,
{
}

/// Across any series of distributions on a pool, its total never goes down.
pub proof fn lemma_total_monotone(
    m: Map<Seq<char>, PoolView>,
    week_id: Seq<char>,
    calls: Seq<(Identity, u64, Seq<WinnerEntry>, bool)>,
)
    requires
        m.contains_key(week_id),
    ensures
        after_distributions(m, week_id, calls).contains_key(week_id),
        after_distributions(m, week_id, calls)[week_id].total_distributed
            >= m[week_id].total_distributed,
    decreases calls.len(),
{
    if calls.len() > 0 {
        let c = calls.last();
        lemma_total_monotone(m, week_id, calls.drop_last());
        lemma_distribution_never_lowers_total(
            after_distributions(m, week_id, calls.drop_last()),
            week_id,
            c.0,
            c.1,
            c.2,
            c.3,
        );
    }
}

/// Opening a pool for a period whose pool is open fails: after a successful
/// open, a second one for the same period is refused with `AlreadyExists`
/// and leaves the first pool in place.
pub proof fn lemma_open_twice_refused(
    m: Map<Seq<char>, PoolView>,
    week_id: Seq<char>,
    authority: Identity,
    bump: u8,
    other_authority: Identity,
    other_bump: u8,
)
    requires
        open_result(m, week_id) is Ok,
    ensures
        open_result(after_open(m, week_id, authority, bump), week_id) == Err::<(), ErrorCode>(
            ErrorCode::AlreadyExists,
        ),
        after_open(after_open(m, week_id, authority, bump), week_id, other_authority, other_bump)
            == after_open(m, week_id, authority, bump),
{
}

} // verus!
