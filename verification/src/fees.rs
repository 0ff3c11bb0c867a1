//! Fee settlement at block close: the per-action minimum fee schedule, the
//! distribution of the minimum-fee pool over stakeholders by largest
//! remainder, and the author's bonus.

use vstd::prelude::*;

verus! {

/// The kind of work a transaction performs. The consensus core does not
/// interpret the action; it only prices it.
#[derive(Clone, Copy, Debug, PartialEq, Eq, Structural)]
pub enum Action {
    MintAsset,
    TransferAsset,
    ChangeAssetScheme,
    IncreaseAssetSupply,
    ComposeAsset,
    DecomposeAsset,
    UnwrapCcc,
    Pay,
    SetRegularKey,
    CreateShard,
    SetShardOwners,
    SetShardUsers,
    WrapCcc,
    Custom,
    Store,
    Remove,
}

/// The engine parameters that price each action kind.
#[derive(Clone, Copy, Debug, PartialEq, Eq, Structural)]
pub struct FeeSchedule {
    pub min_asset_mint_cost: u64,
    pub min_asset_transfer_cost: u64,
    pub min_asset_scheme_change_cost: u64,
    pub min_asset_supply_increase_cost: u64,
    pub min_asset_compose_cost: u64,
    pub min_asset_decompose_cost: u64,
    pub min_asset_unwrap_ccc_cost: u64,
    pub min_pay_cost: u64,
    pub min_set_regular_key_cost: u64,
    pub min_create_shard_cost: u64,
    pub min_set_shard_owners_cost: u64,
    pub min_set_shard_users_cost: u64,
    pub min_wrap_ccc_cost: u64,
    pub min_custom_cost: u64,
    pub min_store_cost: u64,
    pub min_remove_cost: u64,
}

/// A transaction as the fee logic sees it: the fee it pays and the action
/// it performs.
#[derive(Clone, Copy, Debug, PartialEq, Eq, Structural)]
pub struct Transaction {
    pub fee: u64,
    pub action: Action,
}

/// One stakeholder: an address and its stake.
#[derive(Clone, Copy, Debug, PartialEq, Eq, Structural)]
pub struct Stake {
    pub address: u64,
    pub amount: u64,
}

/// One fee share: an address and the amount credited to it.
#[derive(Clone, Copy, Debug, PartialEq, Eq, Structural)]
pub struct Share {
    pub address: u64,
    pub amount: u64,
}

/// The minimum fee of an action under a schedule.
pub open spec fn spec_minimum_fee(schedule: FeeSchedule, action: Action) -> u64 {
    match action {
        Action::MintAsset => schedule.min_asset_mint_cost,
        Action::TransferAsset => schedule.min_asset_transfer_cost,
        Action::ChangeAssetScheme => schedule.min_asset_scheme_change_cost,
        Action::IncreaseAssetSupply => schedule.min_asset_supply_increase_cost,
        Action::ComposeAsset => schedule.min_asset_compose_cost,
        Action::DecomposeAsset => schedule.min_asset_decompose_cost,
        Action::UnwrapCcc => schedule.min_asset_unwrap_ccc_cost,
        Action::Pay => schedule.min_pay_cost,
        Action::SetRegularKey => schedule.min_set_regular_key_cost,
        Action::CreateShard => schedule.min_create_shard_cost,
        Action::SetShardOwners => schedule.min_set_shard_owners_cost,
        Action::SetShardUsers => schedule.min_set_shard_users_cost,
        Action::WrapCcc => schedule.min_wrap_ccc_cost,
        Action::Custom => schedule.min_custom_cost,
        Action::Store => schedule.min_store_cost,
        Action::Remove => schedule.min_remove_cost,
    }
}

/// The minimum fee of an action under a schedule.
pub fn minimum_fee(schedule: &FeeSchedule, action: &Action) -> (r: u64)
    ensures
        r == spec_minimum_fee(*schedule, *action),
{
    match action {
        Action::MintAsset => schedule.min_asset_mint_cost,
        Action::TransferAsset => schedule.min_asset_transfer_cost,
        Action::ChangeAssetScheme => schedule.min_asset_scheme_change_cost,
        Action::IncreaseAssetSupply => schedule.min_asset_supply_increase_cost,
        Action::ComposeAsset => schedule.min_asset_compose_cost,
        Action::DecomposeAsset => schedule.min_asset_decompose_cost,
        Action::UnwrapCcc => schedule.min_asset_unwrap_ccc_cost,
        Action::Pay => schedule.min_pay_cost,
        Action::SetRegularKey => schedule.min_set_regular_key_cost,
        Action::CreateShard => schedule.min_create_shard_cost,
        Action::SetShardOwners => schedule.min_set_shard_owners_cost,
        Action::SetShardUsers => schedule.min_set_shard_users_cost,
        Action::WrapCcc => schedule.min_wrap_ccc_cost,
        Action::Custom => schedule.min_custom_cost,
        Action::Store => schedule.min_store_cost,
        Action::Remove => schedule.min_remove_cost,
    }
}

/// Total fee paid by a transaction sequence.
pub open spec fn fee_total(txs: Seq<Transaction>) -> int
    decreases txs.len(),
{
    if txs.len() == 0 {
        0
    } else {
        fee_total(txs.drop_last()) + txs.last().fee
    }
}

/// Total minimum fee owed by a transaction sequence under a schedule.
pub open spec fn min_fee_total(txs: Seq<Transaction>, schedule: FeeSchedule) -> int
    decreases txs.len(),
{
    if txs.len() == 0 {
        0
    } else {
        min_fee_total(txs.drop_last(), schedule) + spec_minimum_fee(schedule, txs.last().action)
    }
}

/// When every transaction pays at least its minimum fee, the totals order
/// the same way, and both are nonnegative.
pub proof fn lemma_fee_totals(txs: Seq<Transaction>, schedule: FeeSchedule)
    requires
        forall|i: int|
            0 <= i < txs.len() ==> txs[i].fee >= spec_minimum_fee(schedule, txs[i].action),
    ensures
        0 <= min_fee_total(txs, schedule) <= fee_total(txs),
    decreases txs.len(),
{
    if txs.len() > 0 {
        lemma_fee_totals(txs.drop_last(), schedule);
    }
}

/// Total stake of a stakeholder sequence.
pub open spec fn stake_total(s: Seq<Stake>) -> int
    decreases s.len(),
{
    if s.len() == 0 {
        0
    } else {
        stake_total(s.drop_last()) + s.last().amount
    }
}

/// Total of a share sequence.
pub open spec fn share_total(s: Seq<Share>) -> int
    decreases s.len(),
{
    if s.len() == 0 {
        0
    } else {
        share_total(s.drop_last()) + s.last().amount
    }
}

/// The floor share of a stake of `amount` out of `total` in a pool of
/// `pool`.
pub open spec fn spec_share_floor(pool: int, amount: int, total: int) -> int {
    (pool * amount) / total
}

/// The remainder the floor share leaves behind.
pub open spec fn spec_share_rem(pool: int, amount: int, total: int) -> int {
    (pool * amount) % total
}

/// Sum of the floor shares of a stakeholder sequence.
pub open spec fn floor_sum(pool: int, s: Seq<Stake>, total: int) -> int
    decreases s.len(),
{
    if s.len() == 0 {
        0
    } else {
        floor_sum(pool, s.drop_last(), total) + spec_share_floor(pool, s.last().amount as int, total)
    }
}

/// Sum of the remainders of a stakeholder sequence.
pub open spec fn rem_sum(pool: int, s: Seq<Stake>, total: int) -> int
    decreases s.len(),
{
    if s.len() == 0 {
        0
    } else {
        rem_sum(pool, s.drop_last(), total) + spec_share_rem(pool, s.last().amount as int, total)
    }
}

/// The stake totals of prefixes never exceed the whole.
pub proof fn lemma_stake_take_le(s: Seq<Stake>, k: int)
    requires
        0 <= k <= s.len(),
    ensures
        stake_total(s.take(k)) <= stake_total(s),
        stake_total(s.take(k)) >= 0,
    decreases s.len() - k,
{
    lemma_stake_total_nonneg(s.take(k));
    if k < s.len() {
        lemma_stake_take_le(s, k + 1);
        assert(s.take(k + 1).drop_last() =~= s.take(k));
        assert(s.take(k + 1).last() == s[k]);
    } else {
        assert(s.take(k) =~= s);
    }
}

/// Stake totals are nonnegative.
pub proof fn lemma_stake_total_nonneg(s: Seq<Stake>)
    ensures
        stake_total(s) >= 0,
    decreases s.len(),
{
    if s.len() > 0 {
        lemma_stake_total_nonneg(s.drop_last());
    }
}

/// No single stake exceeds the total.
pub proof fn lemma_stake_le_total(s: Seq<Stake>, k: int)
    requires
        0 <= k < s.len(),
    ensures
        s[k].amount <= stake_total(s),
    decreases s.len(),
{
    if k == s.len() - 1 {
        lemma_stake_total_nonneg(s.drop_last());
    } else {
        lemma_stake_le_total(s.drop_last(), k);
        assert(s.drop_last()[k] == s[k]);
    }
}

/// The fundamental accounting of floors and remainders: over any
/// stakeholder sequence, `floor_sum * total + rem_sum == pool * stakes`,
/// with every remainder in `[0, total)`.
pub proof fn lemma_floor_rem_sums(pool: int, s: Seq<Stake>, total: int)
    requires
        pool >= 0,
        total >= 1,
    ensures
        floor_sum(pool, s, total) * total + rem_sum(pool, s, total) == pool * stake_total(s),
        0 <= rem_sum(pool, s, total) <= s.len() * (total - 1),
        floor_sum(pool, s, total) >= 0,
    decreases s.len(),
{
    if s.len() == 0 {
        assert(floor_sum(pool, s, total) * total == 0) by (nonlinear_arith)
            requires
                floor_sum(pool, s, total) == 0,
        ;
        assert(pool * stake_total(s) == 0) by (nonlinear_arith)
            requires
                stake_total(s) == 0,
        ;
    } else {
        let d = s.drop_last();
        let a = s.last().amount as int;
        lemma_floor_rem_sums(pool, d, total);
        let x = pool * a;
        assert(x >= 0) by (nonlinear_arith)
            requires
                x == pool * a,
                pool >= 0,
                a >= 0,
        ;
        vstd::arithmetic::div_mod::lemma_fundamental_div_mod(x, total);
        assert(0 <= x % total < total) by {
            vstd::arithmetic::div_mod::lemma_mod_division_less_than_divisor(x, total);
        }
        let q = x / total;
        let r = x % total;
        assert(q >= 0) by (nonlinear_arith)
            requires
                x >= 0,
                total >= 1,
                x == total * q + r,
                0 <= r < total,
        ;
        assert((floor_sum(pool, d, total) + q) * total == floor_sum(pool, d, total) * total + q
            * total) by (nonlinear_arith);
        assert(q * total == x - r) by (nonlinear_arith)
            requires
                x == total * q + r,
        ;
        assert(pool * (stake_total(d) + a) == pool * stake_total(d) + x) by (nonlinear_arith)
            requires
                x == pool * a,
        ;
        assert(s.len() * (total - 1) == d.len() * (total - 1) + (total - 1)) by (nonlinear_arith)
            requires
                s.len() == d.len() + 1,
        ;
    }
}

/// No single floor share exceeds the floor sum.
pub proof fn lemma_floor_le_sum(pool: int, s: Seq<Stake>, total: int, k: int)
    requires
        pool >= 0,
        total >= 1,
        0 <= k < s.len(),
    ensures
        spec_share_floor(pool, s[k].amount as int, total) <= floor_sum(pool, s, total),
    decreases s.len(),
{
    if k == s.len() - 1 {
        lemma_floor_rem_sums(pool, s.drop_last(), total);
    } else {
        lemma_floor_le_sum(pool, s.drop_last(), total, k);
        assert(s.drop_last()[k] == s[k]);
        let a = s.last().amount as int;
        let x = pool * a;
        assert(x >= 0) by (nonlinear_arith)
            requires
                x == pool * a,
                pool >= 0,
                a >= 0,
        ;
        assert(x / total >= 0) by (nonlinear_arith)
            requires
                x >= 0,
                total >= 1,
        ;
    }
}

/// Number of `true` entries.
pub open spec fn count_true(s: Seq<bool>) -> int
    decreases s.len(),
{
    if s.len() == 0 {
        0
    } else {
        count_true(s.drop_last()) + if s.last() {
            1int
        } else {
            0int
        }
    }
}

/// A boolean sequence with fewer `true`s than entries has a `false` entry.
proof fn lemma_count_true_short(s: Seq<bool>)
    requires
        count_true(s) < s.len(),
    ensures
        exists|i: int| 0 <= i < s.len() && !s[i],
    decreases s.len(),
{
    if s.len() > 0 {
        if s.last() {
            lemma_count_true_short(s.drop_last());
            let i = choose|i: int| 0 <= i < s.drop_last().len() && !s.drop_last()[i];
            assert(!s[i]);
        } else {
            assert(!s[s.len() - 1]);
        }
    }
}

/// Count of `true`s is nonnegative.
proof fn lemma_count_true_nonneg(s: Seq<bool>)
    ensures
        count_true(s) >= 0,
    decreases s.len(),
{
    if s.len() > 0 {
        lemma_count_true_nonneg(s.drop_last());
    }
}

/// The largest-remainder order: stakeholder `i` of `stakes` ranks above
/// stakeholder `j` for the distribution of leftover units.
pub open spec fn ranks_above(pool: int, stakes: Seq<Stake>, total: int, i: int, j: int) -> bool {
    let ri = spec_share_rem(pool, stakes[i].amount as int, total);
    let rj = spec_share_rem(pool, stakes[j].amount as int, total);
    ri > rj || (ri == rj && stakes[i].address > stakes[j].address)
}

/// The floor share of the stakeholder at position `i`.
pub open spec fn floor_at(pool: int, stakes: Seq<Stake>, total: int, i: int) -> int {
    spec_share_floor(pool, stakes[i].amount as int, total)
}

/// A distribution result is a largest-remainder split of `pool` over
/// `stakes`: one share per stakeholder in order, each the floor share or
/// one more, the extras going to the stakeholders that rank highest, and
/// the whole pool paid out.
pub open spec fn is_largest_remainder_split(
    pool: int,
    stakes: Seq<Stake>,
    total: int,
    shares: Seq<Share>,
) -> bool {
    &&& shares.len() == stakes.len()
    &&& (forall|i: int| 0 <= i < shares.len() ==> (#[trigger] shares[i]).address == stakes[i].address)
    &&& (forall|i: int|
        0 <= i < shares.len() ==> floor_at(pool, stakes, total, i) <= (#[trigger] shares[i]).amount
            <= floor_at(pool, stakes, total, i) + 1)
    &&& (forall|i: int, j: int|
        0 <= i < shares.len() && 0 <= j < shares.len() && (#[trigger] shares[i]).amount == floor_at(
            pool,
            stakes,
            total,
            i,
        ) + 1 && (#[trigger] shares[j]).amount == floor_at(pool, stakes, total, j) ==> ranks_above(
            pool,
            stakes,
            total,
            i,
            j,
        ))
    &&& share_total(shares) == pool
}

/// Distribute `pool` over the stakeholders in proportion to their stakes:
/// each gets the floor of its proportional share, and the leftover units go
/// one each to the stakeholders with the largest remainders, ties broken
/// toward the larger address. The shares come back in the stakeholders'
/// order and always sum to exactly `pool`.
#[verifier::loop_isolation(false)]
#[verifier::rlimit(100)]
pub fn fee_distribute(pool: u64, stakes: &Vec<Stake>) -> (r: Vec<Share>)
    requires
        stakes@.len() >= 1,
        1 <= stake_total(stakes@) <= u64::MAX,
        forall|i: int, j: int|
            0 <= i < j < stakes@.len() ==> stakes@[i].address != stakes@[j].address,
    ensures
        is_largest_remainder_split(pool as int, stakes@, stake_total(stakes@), r@),
{
    let ghost gtotal = stake_total(stakes@);
    let n = stakes.len();
    // total stake
    let mut total: u64 = 0;
    let mut k: usize = 0;
    while k < n
        invariant
            0 <= k <= n,
            total == stake_total(stakes@.take(k as int)),
        decreases n - k,
    {
        proof {
            assert(stakes@.take(k + 1).drop_last() =~= stakes@.take(k as int));
            assert(stakes@.take(k + 1).last() == stakes@[k as int]);
            lemma_stake_take_le(stakes@, k + 1);
        }
        total += stakes[k].amount;
        k += 1;
    }
    proof {
        assert(stakes@.take(n as int) =~= stakes@);
    }
    proof {
        assert(gtotal == total);
        assert(gtotal >= 1);
    }
    // floor shares and remainders
    let mut shares: Vec<Share> = Vec::new();
    let mut rems: Vec<u64> = Vec::new();
    let mut fsum: u64 = 0;
    let mut i: usize = 0;
    while i < n
        invariant
            0 <= i <= n,
            total == gtotal,
            1 <= gtotal <= u64::MAX,
            shares@.len() == i,
            rems@.len() == i,
            forall|p: int| 0 <= p < i ==> shares@[p].address == stakes@[p].address,
            forall|p: int|
                0 <= p < i ==> shares@[p].amount == spec_share_floor(
                    pool as int,
                    stakes@[p].amount as int,
                    gtotal,
                ),
            forall|p: int|
                0 <= p < i ==> rems@[p] == spec_share_rem(
                    pool as int,
                    stakes@[p].amount as int,
                    gtotal,
                ),
            fsum == floor_sum(pool as int, stakes@.take(i as int), gtotal),
            share_total(shares@) == fsum,
        decreases n - i,
    {
        let a = stakes[i].amount;
        proof {
            lemma_stake_le_total(stakes@, i as int);
            assert((pool as int) * (a as int) >= 0) by (nonlinear_arith);
            assert((pool as int) * (a as int) <= (u64::MAX as int) * (u64::MAX as int))
                by (nonlinear_arith)
                requires
                    0 <= pool <= u64::MAX,
                    0 <= a <= u64::MAX,
            ;
        }
        let prod: u128 = (pool as u128) * (a as u128);
        let q128: u128 = prod / (total as u128);
        let r128: u128 = prod % (total as u128);
        proof {
            assert(prod == (pool as int) * (a as int));
            assert(q128 == spec_share_floor(pool as int, a as int, gtotal));
            assert(r128 == spec_share_rem(pool as int, a as int, gtotal));
            vstd::arithmetic::div_mod::lemma_fundamental_div_mod(
                (pool as int) * (a as int),
                gtotal,
            );
            vstd::arithmetic::div_mod::lemma_mod_division_less_than_divisor(
                (pool as int) * (a as int),
                gtotal,
            );
            // the floor share never exceeds the pool
            assert(spec_share_floor(pool as int, a as int, gtotal) <= pool) by (nonlinear_arith)
                requires
                    0 <= a as int <= gtotal,
                    1 <= gtotal,
                    0 <= pool,
                    spec_share_floor(pool as int, a as int, gtotal) == ((pool as int) * (
                    a as int)) / gtotal,
            ;
            // floor sums stay within the pool
            assert(stakes@.take(i + 1).drop_last() =~= stakes@.take(i as int));
            assert(stakes@.take(i + 1).last() == stakes@[i as int]);
            lemma_floor_rem_sums(pool as int, stakes@.take(i + 1), gtotal);
            lemma_stake_take_le(stakes@, i + 1);
            assert(floor_sum(pool as int, stakes@.take(i + 1), gtotal) <= pool) by (
            nonlinear_arith)
                requires
                    floor_sum(pool as int, stakes@.take(i + 1), gtotal) * gtotal + rem_sum(
                        pool as int,
                        stakes@.take(i + 1),
                        gtotal,
                    ) == (pool as int) * stake_total(stakes@.take(i + 1)),
                    rem_sum(pool as int, stakes@.take(i + 1), gtotal) >= 0,
                    0 <= stake_total(stakes@.take(i + 1)) <= gtotal,
                    1 <= gtotal,
                    0 <= pool,
            ;
            assert(shares@.push(
                Share { address: stakes@[i as int].address, amount: q128 as u64 },
            ).drop_last() =~= shares@);
        }
        let q: u64 = q128 as u64;
        let r: u64 = r128 as u64;
        shares.push(Share { address: stakes[i].address, amount: q });
        rems.push(r);
        fsum += q;
        i += 1;
    }
    proof {
        assert(stakes@.take(n as int) =~= stakes@);
        lemma_floor_rem_sums(pool as int, stakes@, gtotal);
        // the leftover is less than the number of stakeholders
        assert((pool - fsum) * gtotal == rem_sum(pool as int, stakes@, gtotal)) by (
        nonlinear_arith)
            requires
                floor_sum(pool as int, stakes@, gtotal) * gtotal + rem_sum(
                    pool as int,
                    stakes@,
                    gtotal,
                ) == (pool as int) * stake_total(stakes@),
                stake_total(stakes@) == gtotal,
                fsum == floor_sum(pool as int, stakes@, gtotal),
        ;
        assert(0 <= pool - fsum < stakes@.len()) by (nonlinear_arith)
            requires
                (pool - fsum) * gtotal == rem_sum(pool as int, stakes@, gtotal),
                0 <= rem_sum(pool as int, stakes@, gtotal) <= stakes@.len() * (gtotal - 1),
                1 <= gtotal,
                stakes@.len() >= 1,
        ;
    }
    let leftover: u64 = pool - fsum;
    let mut chosen: Vec<bool> = Vec::new();
    let mut c: usize = 0;
    while c < n
        invariant
            0 <= c <= n,
            chosen@.len() == c,
            forall|p: int| 0 <= p < c ==> !chosen@[p],
            count_true(chosen@) == 0,
        decreases n - c,
    {
        proof {
            assert(chosen@.push(false).drop_last() =~= chosen@);
        }
        chosen.push(false);
        c += 1;
    }
    let mut round: u64 = 0;
    while round < leftover
        invariant
            0 <= round <= leftover,
            leftover < n,
            total == gtotal,
            1 <= gtotal <= u64::MAX,
            shares@.len() == n,
            rems@.len() == n,
            chosen@.len() == n,
            forall|p: int| 0 <= p < n ==> shares@[p].address == stakes@[p].address,
            forall|p: int|
                0 <= p < n ==> rems@[p] == spec_share_rem(
                    pool as int,
                    stakes@[p].amount as int,
                    gtotal,
                ),
            forall|p: int|
                0 <= p < n ==> shares@[p].amount == spec_share_floor(
                    pool as int,
                    stakes@[p].amount as int,
                    gtotal,
                ) + (if chosen@[p] {
                    1int
                } else {
                    0int
                }),
            share_total(shares@) == fsum + round,
            count_true(chosen@) == round,
            forall|p: int, q: int|
                0 <= p < n && 0 <= q < n && chosen@[p] && !chosen@[q] ==> ranks_above(
                    pool as int,
                    stakes@,
                    gtotal,
                    p,
                    q,
                ),
        decreases leftover - round,
    {
        proof {
            lemma_count_true_short(chosen@);
        }
        // find the highest-ranked unchosen stakeholder
        let mut best: usize = n;
        let mut s: usize = 0;
        while s < n
            invariant
                0 <= s <= n,
                best == n || (best < n && !chosen@[best as int]),
                best == n ==> forall|p: int| 0 <= p < s ==> chosen@[p],
                best < n ==> forall|p: int|
                    0 <= p < s && !chosen@[p] && p != best ==> ranks_above(
                        pool as int,
                        stakes@,
                        gtotal,
                        best as int,
                        p,
                    ),
            decreases n - s,
        {
            if !chosen[s] {
                if best == n {
                    best = s;
                } else {
                    let rs = rems[s];
                    let rb = rems[best];
                    if rs > rb || (rs == rb && stakes[s].address > stakes[best].address) {
                        best = s;
                    }
                }
            }
            s += 1;
        }
        proof {
            if best == n {
                let w = choose|w: int| 0 <= w < chosen@.len() && !chosen@[w];
                assert(chosen@[w]);
            }
        }
        // credit one leftover unit to it
        let cur = shares[best];
        proof {
            lemma_floor_le_sum(pool as int, stakes@, gtotal, best as int);
        }
        let bumped = Share { address: cur.address, amount: cur.amount + 1 };
        let ghost old_shares = shares@;
        let ghost old_chosen = chosen@;
        shares[best] = bumped;
        chosen[best] = true;
        round += 1;
        proof {
            lemma_update_share_total(old_shares, best as int, bumped);
            lemma_update_count_true(old_chosen, best as int);
            assert forall|p: int, q: int|
                0 <= p < n && 0 <= q < n && chosen@[p] && !chosen@[q] implies ranks_above(
                pool as int,
                stakes@,
                gtotal,
                p,
                q,
            ) by {
                if p == best as int {
                } else {
                    assert(old_chosen[p] && !old_chosen[q]);
                }
            }
        }
    }
    proof {
        assert(share_total(shares@) == pool);
        assert forall|i0: int, j0: int|
            0 <= i0 < shares@.len() && 0 <= j0 < shares@.len() && shares@[i0].amount
                == spec_share_floor(pool as int, stakes@[i0].amount as int, gtotal) + 1
                && shares@[j0].amount == spec_share_floor(
                pool as int,
                stakes@[j0].amount as int,
                gtotal,
            ) implies ranks_above(pool as int, stakes@, gtotal, i0, j0) by {
            assert(chosen@[i0] && !chosen@[j0]);
        }
    }
    shares
}

/// Bumping one share by one raises the total by one.
proof fn lemma_update_share_total(s: Seq<Share>, k: int, v: Share)
    requires
        0 <= k < s.len(),
        v.amount == s[k].amount + 1,
    ensures
        share_total(s.update(k, v)) == share_total(s) + 1,
    decreases s.len(),
{
    if k == s.len() - 1 {
        assert(s.update(k, v).drop_last() =~= s.drop_last());
        assert(s.update(k, v).last() == v);
    } else {
        lemma_update_share_total(s.drop_last(), k, v);
        assert(s.update(k, v).drop_last() =~= s.drop_last().update(k, v));
        assert(s.update(k, v).last() == s.last());
    }
}

/// Marking one unmarked entry raises the count of marks by one.
proof fn lemma_update_count_true(s: Seq<bool>, k: int)
    requires
        0 <= k < s.len(),
        !s[k],
    ensures
        count_true(s.update(k, true)) == count_true(s) + 1,
    decreases s.len(),
{
    if k == s.len() - 1 {
        assert(s.update(k, true).drop_last() =~= s.drop_last());
        assert(s.update(k, true).last());
    } else {
        lemma_update_count_true(s.drop_last(), k);
        assert(s.update(k, true).drop_last() =~= s.drop_last().update(k, true));
        assert(s.update(k, true).last() == s.last());
    }
}

/// The settlement of a closed block: the stakeholder shares of the
/// minimum-fee pool and the author's bonus.
pub struct FeeSettlement {
    pub shares: Vec<Share>,
    pub author: u64,
    pub author_bonus: u64,
}

/// Close a block's fee accounting. The minimum fees of all transactions
/// form a pool distributed over the stakeholders by largest remainder; the
/// author is owed the excess of the fees actually paid over that pool.
/// Every unit of fee is accounted for:
/// `fee_total == sum(shares) + author_bonus` and
/// `author_bonus == fee_total - min_fee_total`.
///
/// The per-transaction precondition — each fee at least its action's
/// minimum — is the chain machine's own admission rule for transactions,
/// and is what grounds the block-level `total >= minimum` fact this
/// settlement rests on. It is deliberately stronger than asserting only
/// the block totals: a block holding one underpaying and one compensating
/// transaction satisfies the totals but never passes admission, so this
/// settlement refuses it up front. A positive total stake is needed for a
/// proportional split to exist at all.
pub fn close_block_fees(
    transactions: &Vec<Transaction>,
    schedule: &FeeSchedule,
    author: u64,
    stakes: &Vec<Stake>,
) -> (r: FeeSettlement)
    requires
        forall|i: int|
            0 <= i < transactions@.len() ==> transactions@[i].fee >= spec_minimum_fee(
                *schedule,
                transactions@[i].action,
            ),
        fee_total(transactions@) <= u64::MAX,
        stakes@.len() >= 1,
        1 <= stake_total(stakes@) <= u64::MAX,
        forall|i: int, j: int|
            0 <= i < j < stakes@.len() ==> stakes@[i].address != stakes@[j].address,
    ensures
        r.author == author,
        r.author_bonus == fee_total(transactions@) - min_fee_total(transactions@, *schedule),
        is_largest_remainder_split(
            min_fee_total(transactions@, *schedule),
            stakes@,
            stake_total(stakes@),
            r.shares@,
        ),
        share_total(r.shares@) + r.author_bonus == fee_total(transactions@),
{
    let n = transactions.len();
    let mut total_fee: u64 = 0;
    let mut min_fee: u64 = 0;
    let mut i: usize = 0;
    while i < n
        invariant
            0 <= i <= n,
            n == transactions@.len(),
            forall|p: int|
                0 <= p < n ==> transactions@[p].fee >= spec_minimum_fee(
                    *schedule,
                    transactions@[p].action,
                ),
            fee_total(transactions@) <= u64::MAX,
            total_fee == fee_total(transactions@.take(i as int)),
            min_fee == min_fee_total(transactions@.take(i as int), *schedule),
        decreases n - i,
    {
        proof {
            assert(transactions@.take(i + 1).drop_last() =~= transactions@.take(i as int));
            assert(transactions@.take(i + 1).last() == transactions@[i as int]);
            lemma_fee_take_le(transactions@, i + 1);
            lemma_fee_totals(transactions@.take(i + 1), *schedule);
        }
        let tx = transactions[i];
        total_fee += tx.fee;
        min_fee += minimum_fee(schedule, &tx.action);
        i += 1;
    }
    proof {
        assert(transactions@.take(n as int) =~= transactions@);
        lemma_fee_totals(transactions@, *schedule);
    }
    let shares = fee_distribute(min_fee, stakes);
    let author_bonus = total_fee - min_fee;
    FeeSettlement { shares, author, author_bonus }
}

/// Fee totals of prefixes never exceed the whole.
proof fn lemma_fee_take_le(txs: Seq<Transaction>, k: int)
    requires
        0 <= k <= txs.len(),
    ensures
        fee_total(txs.take(k)) <= fee_total(txs),
    decreases txs.len() - k,
{
    if k < txs.len() {
        lemma_fee_take_le(txs, k + 1);
        assert(txs.take(k + 1).drop_last() =~= txs.take(k));
        assert(txs.take(k + 1).last() == txs[k]);
    } else {
        assert(txs.take(k) =~= txs);
    }
}

} // verus!
