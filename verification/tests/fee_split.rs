//! Fee settlement: the minimum-fee schedule, the largest-remainder split,
//! and the block-close accounting identity.

use tendermint_core::fees::{
    close_block_fees, fee_distribute, minimum_fee, Action, FeeSchedule, Stake, Transaction,
};

fn schedule() -> FeeSchedule {
    FeeSchedule {
        min_asset_mint_cost: 1,
        min_asset_transfer_cost: 2,
        min_asset_scheme_change_cost: 3,
        min_asset_supply_increase_cost: 4,
        min_asset_compose_cost: 5,
        min_asset_decompose_cost: 6,
        min_asset_unwrap_ccc_cost: 7,
        min_pay_cost: 5,
        min_set_regular_key_cost: 9,
        min_create_shard_cost: 10,
        min_set_shard_owners_cost: 11,
        min_set_shard_users_cost: 12,
        min_wrap_ccc_cost: 13,
        min_custom_cost: 15,
        min_store_cost: 10,
        min_remove_cost: 16,
    }
}

#[test]
fn minimum_fee_follows_the_schedule() {
    let s = schedule();
    assert_eq!(minimum_fee(&s, &Action::Pay), 5);
    assert_eq!(minimum_fee(&s, &Action::Store), 10);
    assert_eq!(minimum_fee(&s, &Action::Custom), 15);
    assert_eq!(minimum_fee(&s, &Action::MintAsset), 1);
    assert_eq!(minimum_fee(&s, &Action::Remove), 16);
}

/// Three transactions with fees 10, 20, 30 and minimum fees 5, 10, 15;
/// stakes A:1, B:1, C:2. The pool of 30 splits as A:7, B:8 (the tied
/// half-shares resolve toward the larger address), C:15; the author gets
/// the excess 30; every unit is accounted for.
#[test]
fn fee_split_by_largest_remainder() {
    let txs = vec![
        Transaction { fee: 10, action: Action::Pay },
        Transaction { fee: 20, action: Action::Store },
        Transaction { fee: 30, action: Action::Custom },
    ];
    let stakes = vec![
        Stake { address: 1, amount: 1 },
        Stake { address: 2, amount: 1 },
        Stake { address: 3, amount: 2 },
    ];
    let settlement = close_block_fees(&txs, &schedule(), 9, &stakes);
    assert_eq!(settlement.author, 9);
    assert_eq!(settlement.author_bonus, 30);
    let shares: Vec<(u64, u64)> =
        settlement.shares.iter().map(|s| (s.address, s.amount)).collect();
    assert_eq!(shares, vec![(1, 7), (2, 8), (3, 15)]);
    let distributed: u64 = settlement.shares.iter().map(|s| s.amount).sum();
    let total_fee: u64 = txs.iter().map(|t| t.fee).sum();
    assert_eq!(distributed + settlement.author_bonus, total_fee);
    assert_eq!(distributed, 30);
}

/// The distribution pays out the whole pool exactly, whatever the split.
#[test]
fn distribution_is_exact() {
    let stakes = vec![
        Stake { address: 10, amount: 3 },
        Stake { address: 11, amount: 5 },
        Stake { address: 12, amount: 9 },
    ];
    for pool in [0u64, 1, 16, 17, 100, 101] {
        let shares = fee_distribute(pool, &stakes);
        let paid: u64 = shares.iter().map(|s| s.amount).sum();
        assert_eq!(paid, pool);
        assert_eq!(shares.len(), stakes.len());
        for (share, stake) in shares.iter().zip(stakes.iter()) {
            assert_eq!(share.address, stake.address);
        }
    }
}

/// An exact division leaves no remainder to hand out.
#[test]
fn exact_division_has_no_extras() {
    let stakes = vec![
        Stake { address: 1, amount: 1 },
        Stake { address: 2, amount: 3 },
    ];
    let shares = fee_distribute(8, &stakes);
    let amounts: Vec<u64> = shares.iter().map(|s| s.amount).collect();
    assert_eq!(amounts, vec![2, 6]);
}

/// A block with no transactions settles to nothing.
#[test]
fn empty_block_settles_to_zero() {
    let stakes = vec![Stake { address: 1, amount: 1 }];
    let settlement = close_block_fees(&Vec::new(), &schedule(), 4, &stakes);
    assert_eq!(settlement.author_bonus, 0);
    let paid: u64 = settlement.shares.iter().map(|s| s.amount).sum();
    assert_eq!(paid, 0);
}
