use nftamm::contract::Contract;
use nftamm::curve::BondingCurve;
use nftamm::error::AmmError;
use nftamm::fixed::WAD;
use nftamm::lp::LpBalance;
use nftamm::pair::{Pair, PoolType, MAX_FEE};
use nftamm::quote::CurveErrorCode;
use nftamm::swap::{Action, SwapType};

const PFM: u128 = 100_000_000_000_000_000;

fn s(x: &str) -> String {
    x.to_string()
}

fn ids(xs: &[&str]) -> Vec<String> {
    xs.iter().map(|x| x.to_string()).collect()
}

fn held(p: &Pair) -> Vec<String> {
    p.token_ids_in_pools.iter().map(|d| d.token_id.clone()).collect()
}

fn linear_pool(pool_type: PoolType, recipient: Option<String>) -> Pair {
    Pair::new(BondingCurve::LinearCurve, pool_type, s("nft"), 100, 10, 0, s("owner"), recipient, 0, 0, 0).unwrap()
}

#[test]
fn test_new() {
    let contract = Contract::new(
        s("user1.near"),
        Some(s("governance.near")),
        Some(s("protocol_fee_receiver_id.near")),
        Some(10u128.pow(16)),
        120,
        80,
        400,
    )
    .unwrap();
    assert_eq!(contract.pools.len(), 0);
    assert_eq!(contract.governance_id, s("governance.near"));
    assert_eq!(contract.protocol_fee_receiver_id, s("protocol_fee_receiver_id.near"));
    assert_eq!(contract.protocol_fee_multiplier, 10u128.pow(16));
    assert_ne!(contract.storage_per_account_creation, 0);
}

#[test]
fn new_defaults_and_limits() {
    let c = Contract::new(s("me"), None, None, None, 1, 1, 1).unwrap();
    assert_eq!(c.governance_id, s("me"));
    assert_eq!(c.protocol_fee_receiver_id, s("me"));
    assert_eq!(c.protocol_fee_multiplier, PFM);
    let big = Contract::new(s("me"), None, None, Some(WAD / 2), 1, 1, 1).unwrap();
    assert_eq!(big.protocol_fee_multiplier, WAD / 2);
}

#[test]
fn pair_new_errors() {
    let mk = |t: PoolType, c: BondingCurve, spot: u128, delta: u128, fee: u128, r: Option<String>| {
        Pair::new(c, t, s("nft"), spot, delta, fee, s("o"), r, 0, 0, 0).err()
    };
    let lin = BondingCurve::LinearCurve;
    let exp = BondingCurve::ExponentialCurve;
    assert_eq!(mk(PoolType::NFT, lin, 1, 1, 5, Some(s("r"))), Some(AmmError::NonTradeFee));
    assert_eq!(mk(PoolType::Token, lin, 1, 1, 0, None), Some(AmmError::AssetRecipientRequired));
    assert_eq!(mk(PoolType::Trade, lin, 1, 1, MAX_FEE, None), Some(AmmError::FeeExceedsMax));
    assert_eq!(mk(PoolType::Trade, lin, 1, 1, 0, Some(s("r"))), Some(AmmError::AssetRecipientForbidden));
    assert_eq!(mk(PoolType::Trade, exp, 10u128.pow(24), WAD, 0, None), Some(AmmError::InvalidDelta));
    assert_eq!(mk(PoolType::Trade, exp, 10u128.pow(23), 2 * WAD, 0, None), Some(AmmError::InvalidSpotPrice));
    assert_eq!(mk(PoolType::Trade, exp, 10u128.pow(24), 2 * WAD, MAX_FEE - 1, None), None);
    assert_eq!(PoolType::from_u8(3).err(), Some(AmmError::UnknownPoolType));
    assert_eq!(PoolType::from_u8(2), Ok(PoolType::Trade));
    assert_eq!(SwapType::from_u8(1), Ok(SwapType::NearToNFT));
    assert_eq!(SwapType::from_u8(2).err(), Some(AmmError::UnknownSwapType));
}

#[test]
fn linear_nft_pool_buy_one() {
    let mut p = linear_pool(PoolType::NFT, Some(s("R")));
    p.deposit_and_mint_lp(&s("owner"), &s("owner"), &ids(&["a", "b", "c"]), 0).unwrap();
    let (fee, input, out) = p.swap_near_for_any_nfts(1_000, 1, PFM).unwrap();
    // base price spot + delta = 110, plus the 10 % protocol fee on top
    assert_eq!(fee, 11);
    assert_eq!(input, 121);
    assert_eq!(out, ids(&["a"]));
    assert_eq!(p.near_balance, 0);
    assert_eq!(p.spot_price, 110);
    assert_eq!(held(&p), ids(&["b", "c"]));
}

#[test]
fn buy_refusals() {
    let mut p = linear_pool(PoolType::NFT, Some(s("R")));
    p.deposit_and_mint_lp(&s("owner"), &s("owner"), &ids(&["a", "b"]), 0).unwrap();
    assert_eq!(p.swap_near_for_any_nfts(1_000, 3, PFM).err(), Some(AmmError::InvalidItemCount));
    assert_eq!(p.swap_near_for_any_nfts(1_000, 0, PFM).err(), Some(AmmError::InvalidItemCount));
    assert_eq!(p.swap_near_for_any_nfts(120, 1, PFM).err(), Some(AmmError::NotEnoughPayment));
    assert_eq!(p.swap_near_for_specific_nfts(1_000, &ids(&["z"]), PFM).err(), Some(AmmError::TokenNotInPool));
    assert_eq!(p.swap_near_for_specific_nfts(1_000, &ids(&["a", "a"]), PFM).err(), Some(AmmError::TokenNotInPool));
    assert_eq!(p.spot_price, 100);
    assert_eq!(held(&p), ids(&["a", "b"]));
    let (fee, input) = p.swap_near_for_specific_nfts(1_000, &ids(&["b"]), PFM).unwrap();
    assert_eq!((fee, input), (11, 121));
    assert_eq!(held(&p), ids(&["a"]));
    let mut t = linear_pool(PoolType::Token, Some(s("R")));
    assert_eq!(t.swap_near_for_any_nfts(1_000, 1, PFM).err(), Some(AmmError::WrongPoolType));
    let mut n = linear_pool(PoolType::NFT, Some(s("R")));
    assert_eq!(n.swap_nfts_for_near(&s("x"), &ids(&["a"]), 0, PFM).err(), Some(AmmError::WrongPoolType));
}

#[test]
fn linear_trade_pool_round_trip() {
    let mut p = linear_pool(PoolType::Trade, None);
    p.internal_register_account_lp(&s("lp"));
    p.deposit_and_mint_lp(&s("lp"), &s("lp"), &ids(&["a", "b"]), 1_000).unwrap();
    let (fee, input, bought) = p.swap_near_for_any_nfts(10_000, 2, 0).unwrap();
    assert_eq!(fee, 0);
    assert_eq!(input, 230);
    assert_eq!(p.near_balance, 1_230);
    let (fee, output) = p.swap_nfts_for_near(&s("trader"), &bought, 0, 0).unwrap();
    assert_eq!(fee, 0);
    assert_eq!(output, 230);
    assert_eq!(p.spot_price, 100);
    assert_eq!(p.delta, 10);
    assert_eq!(p.near_balance, 1_000);
    assert_eq!(p.token_ids_in_pools.len(), 2);
}

#[test]
fn trade_pool_keeps_input_net_of_fee() {
    let mut p = linear_pool(PoolType::Trade, None);
    p.deposit_and_mint_lp(&s("lp"), &s("lp"), &ids(&["a", "b"]), 1_000).unwrap();
    let (fee, input, _) = p.swap_near_for_any_nfts(10_000, 1, PFM).unwrap();
    assert_eq!((fee, input), (11, 121));
    assert_eq!(p.near_balance, 1_110);
}

#[test]
fn exponential_overflow_leaves_pool_unchanged() {
    let mut p = Pair::new(
        BondingCurve::ExponentialCurve,
        PoolType::NFT,
        s("nft"),
        10u128.pow(24),
        2 * WAD,
        0,
        s("owner"),
        Some(s("R")),
        0,
        0,
        0,
    )
    .unwrap();
    let many: Vec<String> = (0..200).map(|i| format!("t{}", i)).collect();
    p.deposit_and_mint_lp(&s("owner"), &s("owner"), &many, 0).unwrap();
    let r = p.swap_near_for_any_nfts(u128::MAX, 200, PFM);
    assert_eq!(r.err(), Some(AmmError::QuoteFailed(CurveErrorCode::SpotPriceOverflow)));
    assert_eq!(p.spot_price, 10u128.pow(24));
    assert_eq!(p.token_ids_in_pools.len(), 200);
}

fn fractional_pool() -> Pair {
    let mut p = linear_pool(PoolType::Trade, None);
    p.deposit_and_mint_lp(&s("lp"), &s("lp"), &ids(&["a", "b", "c"]), 300).unwrap();
    p.lp_balances = vec![
        LpBalance { account_id: s("A"), balance: 4 },
        LpBalance { account_id: s("B"), balance: 6 },
    ];
    p.lp_supply = 10;
    p
}

#[test]
fn burn_with_fractional_nft() {
    let mut p = fractional_pool();
    // 3 * 100 * 4 / 10 = 120; 2 NFTs worth 100 + 110; fraction 90; coin 30
    let (fee, coin, out) = p.burn_lp(&s("A"), 4, PFM).unwrap();
    assert_eq!(coin, 30);
    assert_eq!(fee, 3);
    assert_eq!(out, ids(&["a", "b"]));
    assert_eq!(held(&p), ids(&["c"]));
    assert_eq!(p.near_balance, 270);
    assert_eq!(p.lp_supply, 6);
    assert_eq!(p.lp_balances[0].balance, 0);
}

#[test]
fn burn_zero_changes_nothing() {
    let mut p = fractional_pool();
    let r = p.burn_lp(&s("A"), 0, PFM).unwrap();
    assert_eq!(r, (0, 0, Vec::new()));
    assert_eq!(p.lp_supply, 10);
    assert_eq!(p.near_balance, 300);
    assert_eq!(p.token_ids_in_pools.len(), 3);
}

#[test]
fn burn_refusals() {
    let mut p = fractional_pool();
    assert_eq!(p.burn_lp(&s("A"), 5, PFM).err(), Some(AmmError::InsufficientLpBalance));
    assert_eq!(p.burn_lp(&s("nobody"), 1, PFM).err(), Some(AmmError::InsufficientLpBalance));
    // 3 * 100 * 1 / 10 = 30 against 100 + 10 extra for the rounded-up NFT
    assert_eq!(p.burn_lp(&s("A"), 1, PFM).err(), Some(AmmError::LiquidityTooSmall));
    assert_eq!(p.lp_supply, 10);
}

#[test]
fn burn_exact_share() {
    let mut p = linear_pool(PoolType::Trade, None);
    p.deposit_and_mint_lp(&s("lp"), &s("lp"), &ids(&["a", "b"]), 400).unwrap();
    assert_eq!(p.lp_supply, 400);
    let (_, coin, out) = p.burn_lp(&s("lp"), 200, 0).unwrap();
    assert_eq!(coin, 100);
    assert_eq!(out, ids(&["a"]));
}

#[test]
fn transfer_then_burn_matches_direct_burn() {
    let mut direct = fractional_pool();
    let expected = direct.burn_lp(&s("B"), 6, PFM).unwrap();
    let mut moved = fractional_pool();
    moved.internal_register_account_lp(&s("C"));
    moved.lp_transfer(&s("B"), &s("C"), 6).unwrap();
    let got = moved.burn_lp(&s("C"), 6, PFM).unwrap();
    assert_eq!(got, expected);
}

#[test]
fn lp_transfer_rules() {
    let mut p = fractional_pool();
    assert_eq!(p.lp_transfer(&s("A"), &s("A"), 1).err(), Some(AmmError::SelfTransfer));
    assert_eq!(p.lp_transfer(&s("X"), &s("A"), 1).err(), Some(AmmError::AccountNotRegistered));
    assert_eq!(p.lp_transfer(&s("A"), &s("B"), 5).err(), Some(AmmError::InsufficientLpBalance));
    assert_eq!(p.lp_transfer(&s("A"), &s("X"), 1).err(), Some(AmmError::AccountNotRegistered));
    p.lp_transfer(&s("A"), &s("B"), 3).unwrap();
    assert_eq!(p.lp_balances[0].balance, 1);
    assert_eq!(p.lp_balances[1].balance, 9);
    assert_eq!(p.lp_supply, 10);
}

#[test]
fn lp_register_is_idempotent() {
    let mut p = fractional_pool();
    p.internal_register_account_lp(&s("D"));
    p.internal_register_account_lp(&s("D"));
    p.internal_register_account_lp(&s("A"));
    assert_eq!(p.lp_balances.len(), 3);
    assert_eq!(p.lp_balances[2].account_id, s("D"));
    assert_eq!(p.lp_balances[2].balance, 0);
    assert_eq!(p.lp_balances[0].balance, 4);
}

#[test]
fn deposit_mints_by_nft_ratio() {
    let mut p = linear_pool(PoolType::Trade, None);
    p.deposit_and_mint_lp(&s("lp"), &s("lp"), &ids(&["a", "b"]), 400).unwrap();
    p.deposit_and_mint_lp(&s("x"), &s("x"), &ids(&["c", "d"]), 200).unwrap();
    // 400 * 2 / 4
    assert_eq!(p.lp_supply, 600);
    assert_eq!(p.lp_balances[1].balance, 200);
    assert_eq!(p.near_balance, 600);
    assert_eq!(
        p.deposit_and_mint_lp(&s("x"), &s("x"), &ids(&["e", "f"]), 199).err(),
        Some(AmmError::InvalidAddedLiquidity)
    );
    p.deposit_and_mint_lp(&s("x"), &s("x"), &ids(&["a"]), 100).unwrap();
    assert_eq!(p.token_ids_in_pools.len(), 4);
}

#[test]
fn sell_saturation() {
    let mut p = Pair::new(BondingCurve::LinearCurve, PoolType::Token, s("nft"), 100, 0, 0, s("owner"), Some(s("R")), 0, 0, 0)
        .unwrap();
    p.deposit_and_mint_lp(&s("owner"), &s("owner"), &Vec::new(), 50).unwrap();
    // the quote is output 90, fee 10 against 50 coin
    assert_eq!(p.swap_nfts_for_near(&s("t"), &ids(&["a"]), 60, PFM).err(), Some(AmmError::OutTooLittle));
    assert_eq!(p.near_balance, 50);
    let (fee, output) = p.swap_nfts_for_near(&s("t"), &ids(&["a"]), 50, PFM).unwrap();
    assert_eq!(output, 50);
    assert_eq!(fee, 0);
    assert_eq!(p.near_balance, 0);
    assert_eq!(p.token_ids_in_pools.len(), 0);
}

#[test]
fn owner_withdrawals() {
    let mut p = Pair::new(BondingCurve::LinearCurve, PoolType::NFT, s("nft"), 100, 10, 0, s("owner"), Some(s("R")), 0, 50, 0)
        .unwrap();
    p.deposit_and_mint_lp(&s("owner"), &s("owner"), &ids(&["a", "b"]), 70).unwrap();
    assert_eq!(p.withdraw_near(&s("other"), 10, 100).err(), Some(AmmError::OnlyPoolOwner));
    assert_eq!(p.withdraw_near(&s("owner"), 10, 49).err(), Some(AmmError::NotReleased));
    assert_eq!(p.withdraw_near(&s("owner"), 10, 50), Ok(10));
    assert_eq!(p.withdraw_near(&s("owner"), 100, 50), Ok(60));
    assert_eq!(p.near_balance, 0);
    assert_eq!(p.withdraw_nfts(&s("owner"), &ids(&["z"]), 50).err(), Some(AmmError::TokenNotInPool));
    p.withdraw_nfts(&s("owner"), &ids(&["a"]), 50).unwrap();
    assert_eq!(held(&p), ids(&["b"]));
    let mut t = linear_pool(PoolType::Trade, None);
    assert_eq!(t.withdraw_near(&s("owner"), 1, 0).err(), Some(AmmError::TradePoolWithdrawal));
}

#[test]
fn owner_changes() {
    let mut p = linear_pool(PoolType::NFT, Some(s("R")));
    assert_eq!(p.change_spot_price(&s("x"), 5).err(), Some(AmmError::OnlyPoolOwner));
    p.change_spot_price(&s("owner"), 5).unwrap();
    p.change_delta(&s("owner"), 7).unwrap();
    assert_eq!((p.spot_price, p.delta), (5, 7));
    assert_eq!(p.change_fee(&s("owner"), 1).err(), Some(AmmError::NonTradeFee));
    assert_eq!(p.change_asset_recipient(&s("owner"), None).err(), Some(AmmError::AssetRecipientRequired));
    p.change_asset_recipient(&s("owner"), Some(s("R2"))).unwrap();
    assert_eq!(p.asset_recipient, Some(s("R2")));
    let mut t = linear_pool(PoolType::Trade, None);
    assert_eq!(t.change_spot_price(&s("owner"), 5).err(), Some(AmmError::WrongPoolType));
}

fn two_pool_ledger() -> Contract {
    let mut c = Contract::new(s("gov"), None, None, None, 1, 1, 1).unwrap();
    c.internal_register_account(&s("lp"), 0).unwrap();
    for t in ["a", "b", "c"] {
        c.internal_deposit_nft(&s("lp"), &s("nft"), &s(t)).unwrap();
    }
    assert_eq!(c.create_pair(&s("lp"), 2, 0, s("nft"), 100, 10, 0, None, &ids(&["a", "b"]), 0, 1_000), Ok(0));
    assert_eq!(c.create_pair(&s("lp"), 2, 0, s("nft"), 100, 10, 0, None, &ids(&["c"]), 0, 1_000), Ok(1));
    c
}

#[test]
fn router_two_hop() {
    let mut c = two_pool_ledger();
    let actions = vec![
        Action {
            pool_id: 0,
            swap_type: 1,
            min_output_near: None,
            input_token_ids: Vec::new(),
            output_token_ids: Vec::new(),
            num_out_nfts: Some(1),
        },
        Action {
            pool_id: 1,
            swap_type: 0,
            min_output_near: Some(0),
            input_token_ids: Vec::new(),
            output_token_ids: Vec::new(),
            num_out_nfts: None,
        },
    ];
    let out = c.swap(&s("trader"), &actions, 500).unwrap();
    // hop 0 charges 110 + 11; hop 1 pays 100 - 10
    assert_eq!(out.hop_fees, vec![11, 10]);
    assert_eq!(out.hop_spent, vec![121, 0]);
    assert_eq!(out.hop_received, vec![0, 90]);
    assert_eq!(out.refund, 500 - 121 + 90);
    assert_eq!(out.nft_transfers.len(), 0);
    assert_eq!(c.protocol_fee_credit, 21);
    assert_eq!(held(&c.pools[0]), ids(&["b"]));
    assert_eq!(held(&c.pools[1]), ids(&["c", "a"]));
    assert_eq!(c.pools[1].near_balance, 900);
}

#[test]
fn router_delivers_bought_nfts() {
    let mut c = two_pool_ledger();
    let actions = vec![Action {
        pool_id: 0,
        swap_type: 1,
        min_output_near: None,
        input_token_ids: Vec::new(),
        output_token_ids: ids(&["b"]),
        num_out_nfts: Some(1),
    }];
    let out = c.swap(&s("trader"), &actions, 200).unwrap();
    assert_eq!(out.refund, 79);
    assert_eq!(out.nft_transfers.len(), 1);
    assert_eq!(out.nft_transfers[0].token_ids, ids(&["b"]));
    assert_eq!(c.protocol_fee_credit, 11);
}

#[test]
fn router_refusals() {
    let mut c = two_pool_ledger();
    assert_eq!(c.swap(&s("t"), &Vec::new(), 0).err(), Some(AmmError::InvalidInputTokens));
    let first_sell = vec![Action {
        pool_id: 0,
        swap_type: 0,
        min_output_near: Some(0),
        input_token_ids: Vec::new(),
        output_token_ids: Vec::new(),
        num_out_nfts: None,
    }];
    assert_eq!(c.swap(&s("t"), &first_sell, 0).err(), Some(AmmError::InvalidInputTokens));
    let bad_pool = vec![Action {
        pool_id: 9,
        swap_type: 1,
        min_output_near: None,
        input_token_ids: Vec::new(),
        output_token_ids: Vec::new(),
        num_out_nfts: Some(1),
    }];
    assert_eq!(c.swap(&s("t"), &bad_pool, 1_000).err(), Some(AmmError::InvalidPoolId));
    let short = vec![Action {
        pool_id: 0,
        swap_type: 1,
        min_output_near: None,
        input_token_ids: Vec::new(),
        output_token_ids: Vec::new(),
        num_out_nfts: Some(1),
    }];
    assert_eq!(c.swap(&s("t"), &short, 120).err(), Some(AmmError::NotEnoughPayment));
}

#[test]
fn ledger_liquidity_and_views() {
    let mut c = two_pool_ledger();
    assert_eq!(c.get_pool_count(), 2);
    assert_eq!(c.lp_total_supply(0), Ok(1_000));
    assert_eq!(c.lp_balance_of(0, &s("lp")), Ok(1_000));
    assert_eq!(c.lp_balance_of(0, &s("zz")), Ok(0));
    assert_eq!(c.get_nft_asset_id(1), Ok(s("nft")));
    assert_eq!(c.get_buy_info(0, 1).unwrap().input_value.as_u128(), Some(121));
    assert_eq!(c.get_sell_info(0, 1).unwrap().output_value.as_u128(), Some(90));
    assert_eq!(c.get_buy_info(5, 1).err(), Some(AmmError::InvalidPoolId));
    c.lp_register(0, &s("friend")).unwrap();
    c.lp_transfer(&s("lp"), 0, &s("friend"), 500).unwrap();
    assert_eq!(c.lp_balance_of(0, &s("friend")), Ok(500));
    let (coin, out) = c.remove_liquidity(&s("friend"), 0, 500, 1).unwrap();
    // 2 NFTs at 100 each, half the supply: one NFT and 2 * 100 * 500 / 1000 coin
    assert_eq!(coin, 100);
    assert_eq!(out, ids(&["a"]));
    assert_eq!(c.protocol_fee_credit, 10);
    assert_eq!(c.pools[0].near_balance, 900);
    assert_eq!(c.remove_liquidity(&s("lp"), 0, 10, 0).err(), Some(AmmError::AttachmentRequired));
    assert_eq!(c.set_protocol_fee_receiver(&s("x"), s("y")).err(), Some(AmmError::OnlyGovernance));
    c.set_protocol_fee_receiver(&s("gov"), s("y")).unwrap();
    assert_eq!(c.protocol_fee_receiver_id, s("y"));
}

#[test]
fn staging_rules() {
    let mut c = Contract::new(s("gov"), None, None, None, 1, 1, 1).unwrap();
    assert_eq!(c.internal_deposit_nft(&s("u"), &s("nft"), &s("a")).err(), Some(AmmError::AccountNotRegistered));
    c.internal_register_account(&s("u"), 10).unwrap();
    c.internal_deposit_nft(&s("u"), &s("nft"), &s("a")).unwrap();
    assert_eq!(c.withdraw_nfts_from_deposit(&s("u"), &s("nft"), &ids(&["a"]), 0).err(), Some(AmmError::AttachmentRequired));
    assert_eq!(c.internal_withdraw_nft(&s("u"), &s("other"), &ids(&["a"])).err(), Some(AmmError::NoDepositedTokens));
    c.withdraw_nfts_from_deposit(&s("u"), &s("nft"), &ids(&["a"]), 1).unwrap();
    assert_eq!(c.account_deposits[0].assets[0].token_ids.len(), 0);
    assert_eq!(c.assert_storage(&s("u"), 5, 0, 2), Ok(()));
    assert_eq!(c.assert_storage(&s("u"), 5, 0, 2).err(), Some(AmmError::StorageExceeded));
}

#[test]
fn ledger_storage_views() {
    let mut c = Contract::new(s("gov"), None, None, None, 30, 20, 1).unwrap();
    assert_eq!(c.storage_balance_bounds_for_account(3), Ok((150, 150)));
    assert_eq!(c.storage_balance_bounds_for_account(u128::MAX).err(), Some(AmmError::BalanceOverflow));
    assert_eq!(c.storage_available(&s("u"), 2), 0);
    c.internal_register_account(&s("u"), 100).unwrap();
    c.assert_storage(&s("u"), 10, 0, 2).unwrap();
    assert_eq!(c.storage_available(&s("u"), 2), 80);
    assert_eq!(c.storage_available(&s("u"), 20), 0);
    assert_eq!(c.get_protocol_fee_multiplier(), PFM);
}

#[test]
fn ledger_resolves_transfers() {
    let mut c = two_pool_ledger();
    assert_eq!(c.get_all_held_ids(0), Ok(ids(&["a", "b"])));
    c.lp_register(0, &s("friend")).unwrap();
    c.lp_transfer(&s("lp"), 0, &s("friend"), 300).unwrap();
    // the receiver used 100 of 300: 200 go back
    assert_eq!(c.lp_resolve_transfer(0, &s("lp"), &s("friend"), 300, Some(200)), Ok(200));
    assert_eq!(c.lp_balance_of(0, &s("friend")), Ok(100));
    assert_eq!(c.lp_balance_of(0, &s("lp")), Ok(900));
    // a failed notification returns everything the receiver still holds
    assert_eq!(c.lp_resolve_transfer(0, &s("lp"), &s("friend"), 300, None), Ok(300));
    assert_eq!(c.lp_balance_of(0, &s("friend")), Ok(0));
    c.nft_transfer_resolve(&s("lp"), &s("nft"), &s("q"), true).unwrap();
    assert_eq!(c.nft_transfer_resolve(&s("ghost"), &s("nft"), &s("q"), false).err(), Some(AmmError::AccountNotRegistered));
    c.nft_transfer_resolve(&s("lp"), &s("nft"), &s("q"), false).unwrap();
    assert_eq!(c.account_deposits[0].assets[0].token_ids, ids(&["q"]));
}

#[test]
fn sale_refused_when_fees_exceed_whole() {
    let mut p = Pair::new(BondingCurve::LinearCurve, PoolType::Trade, s("nft"), 100, 10, MAX_FEE - 1, s("o"), None, 0, 0, 0)
        .unwrap();
    p.deposit_and_mint_lp(&s("o"), &s("o"), &Vec::new(), 1_000).unwrap();
    assert_eq!(p.swap_nfts_for_near(&s("t"), &ids(&["a"]), 0, WAD / 5).err(), Some(AmmError::FeeExceedsMax));
    assert!(p.swap_nfts_for_near(&s("t"), &ids(&["a"]), 0, WAD / 10).is_ok());
}

#[test]
fn staging_refuses_unstaged_ids() {
    let mut c = Contract::new(s("gov"), None, None, None, 1, 1, 1).unwrap();
    c.internal_register_account(&s("u"), 0).unwrap();
    c.internal_deposit_nft(&s("u"), &s("nft"), &s("a")).unwrap();
    assert_eq!(c.internal_withdraw_nft(&s("u"), &s("nft"), &ids(&["a", "zz"])).err(), Some(AmmError::TokenNotStaged));
    assert_eq!(c.account_deposits[0].assets[0].token_ids, ids(&["a"]));
    assert_eq!(
        c.create_pair(&s("u"), 2, 0, s("nft"), 100, 10, 0, None, &ids(&["zz"]), 0, 1_000).err(),
        Some(AmmError::TokenNotStaged)
    );
}

#[test]
fn deposit_retags_held_ids() {
    let mut p = linear_pool(PoolType::Trade, None);
    p.deposit_and_mint_lp(&s("first"), &s("first"), &ids(&["a", "b"]), 400).unwrap();
    p.deposit_and_mint_lp(&s("second"), &s("second"), &ids(&["b", "c"]), 200).unwrap();
    assert_eq!(held(&p), ids(&["a", "b", "c"]));
    assert_eq!(p.token_ids_in_pools[0].depositor, s("first"));
    assert_eq!(p.token_ids_in_pools[1].depositor, s("second"));
    assert_eq!(p.token_ids_in_pools[2].depositor, s("second"));
    p.swap_nfts_for_near(&s("seller"), &ids(&["a"]), 0, 0).unwrap();
    assert_eq!(p.token_ids_in_pools[0].depositor, s("seller"));
}

#[test]
fn coin_only_pool_needs_no_staging() {
    let mut c = Contract::new(s("gov"), None, None, None, 1, 1, 1).unwrap();
    assert_eq!(c.create_pair(&s("o"), 0, 0, s("nft"), 100, 10, 0, Some(s("r")), &Vec::new(), 0, 500), Ok(0));
    assert_eq!(c.pools[0].near_balance, 500);
    assert_eq!(c.created_pool_ids[0].pool_ids, vec![0u64]);
    assert_eq!(c.create_pair(&s("o"), 0, 0, s("nft"), 100, 10, 0, Some(s("r")), &Vec::new(), 0, 5), Ok(1));
    assert_eq!(c.created_pool_ids[0].pool_ids, vec![0u64, 1]);
    assert_eq!(c.storage_available(&s("r"), 1), 0);
}
