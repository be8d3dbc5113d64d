//! A pool: curve state, NFT inventory, coin balance and pool shares.
use vstd::prelude::*;
use crate::curve::{BondingCurve, Curve};
use crate::error::AmmError;
use crate::exponential;
use crate::fees::{gross_up, lemma_part_nonneg, part_of};
use crate::fixed::{fits_u128, mul_div, mul_div_spec, mul_eq, WAD};
use crate::lp::{
    find_lp, lemma_lp_absent, lemma_lp_at, lemma_lp_one_bounded, lemma_lp_pair_bounded,
    lemma_lp_push, lemma_lp_sum_update, lemma_lp_update, lp_accounts, lp_balance, lp_sum,
    LpBalance,
};
use crate::quote::CurveErrorCode;
use crate::wide::U256;
use crate::seqs::{lemma_push_contains, views};

verus! {

/// Highest trade fee a pool may charge, 0.9 in WAD units.
pub const MAX_FEE: u128 = 900_000_000_000_000_000;

/// The three flavours of pool.
#[derive(Clone, Copy, Debug, PartialEq, Eq, Structural)]
pub enum PoolType {
    Token,
    NFT,
    Trade,
}

impl PoolType {
    /// Decodes the wire tag: 0 is Token, 1 is NFT, 2 is Trade.
    pub fn from_u8(val: u8) -> (r: Result<PoolType, AmmError>)
        ensures
            val == 0 ==> r == Ok::<PoolType, AmmError>(PoolType::Token),
            val == 1 ==> r == Ok::<PoolType, AmmError>(PoolType::NFT),
            val == 2 ==> r == Ok::<PoolType, AmmError>(PoolType::Trade),
            val > 2 ==> r == Err::<PoolType, AmmError>(AmmError::UnknownPoolType),
    {
        if val == 0 {
            Ok(PoolType::Token)
        } else if val == 1 {
            Ok(PoolType::NFT)
        } else if val == 2 {
            Ok(PoolType::Trade)
        } else {
            Err(AmmError::UnknownPoolType)
        }
    }
}

/// An NFT held by a pool, with the account that brought it in.
#[derive(Debug)]
pub struct DepositedToken {
    pub token_id: String,
    pub depositor: String,
}

/// Token ids of an inventory, in order.
pub open spec fn ids_of(s: Seq<DepositedToken>) -> Seq<Seq<char>> {
    s.map_values(|d: DepositedToken| d.token_id@)
}

/// Inventory `h` after adding `ids` in order: ids not yet held are appended.
pub open spec fn add_ids(h: Seq<Seq<char>>, ids: Seq<Seq<char>>) -> Seq<Seq<char>>
    decreases ids.len(),
{
    if ids.len() == 0 {
        h
    } else {
        let h2 = add_ids(h, ids.drop_last());
        if h2.contains(ids.last()) {
            h2
        } else {
            h2.push(ids.last())
        }
    }
}

/// After adding `ids` with tag `depositor`: every entry whose id is among `ids` carries that
/// tag, and every other entry is the one at the same place before.
pub open spec fn retagged(
    entries: Seq<DepositedToken>,
    before: Seq<DepositedToken>,
    ids: Seq<Seq<char>>,
    depositor: Seq<char>,
) -> bool {
    forall|m: int| 0 <= m < entries.len() ==> {
        let e = #[trigger] entries[m];
        &&& (ids.contains(ids_of(entries)[m]) ==> e.depositor@ == depositor)
        &&& (!ids.contains(ids_of(entries)[m]) ==> m < before.len() && e == before[m])
    }
}

/// Fee and recipient rules of each pool type.
pub open spec fn pool_discipline(pool_type: PoolType, fee: u128, recipient: Option<String>) -> bool {
    match pool_type {
        PoolType::Trade => fee < MAX_FEE && recipient.is_none(),
        _ => fee == 0 && recipient.is_some(),
    }
}

/// A pool trading one NFT collection against the native coin.
#[derive(Debug)]
pub struct Pair {
    pub curve: Curve,
    pub pool_type: PoolType,
    pub nft_token: String,
    pub spot_price: u128,
    pub delta: u128,
    pub fee: u128,
    pub owner: String,
    pub asset_recipient: Option<String>,
    pub near_balance: u128,
    pub token_ids_in_pools: Vec<DepositedToken>,
    pub released_time: u64,
    pub pool_id: u64,
    pub lp_balances: Vec<LpBalance>,
    pub lp_supply: u128,
}

/// Number of NFTs a burn of `lp` out of `supply` hands out from `held` NFTs: the
/// proportional share, rounded up.
pub open spec fn burn_count(held: int, lp: int, supply: int) -> int {
    if (held * lp) % supply == 0 {
        (held * lp) / supply
    } else {
        (held * lp) / supply + 1
    }
}

/// Coin value of a burn before the rounding adjustment: `held · spot · lp / supply`.
pub open spec fn burn_raw(held: int, spot: int, lp: int, supply: int) -> int {
    mul_div_spec(held * spot, lp, supply)
}

impl Pair {
    /// Token ids held, in selection order.
    pub open spec fn held(&self) -> Seq<Seq<char>> {
        ids_of(self.token_ids_in_pools@)
    }

    /// Shares of account `a`.
    pub open spec fn lp_of(&self, a: Seq<char>) -> int {
        lp_balance(self.lp_balances@, a)
    }

    /// Whether account `a` has a share entry.
    pub open spec fn registered(&self, a: Seq<char>) -> bool {
        lp_accounts(self.lp_balances@).contains(a)
    }

    /// The pool's invariants.
    pub open spec fn wf(&self) -> bool {
        &&& pool_discipline(self.pool_type, self.fee, self.asset_recipient)
        &&& self.curve.valid_delta(self.delta)
        &&& self.curve.valid_spot_price(self.spot_price)
        &&& self.held().no_duplicates()
        &&& lp_accounts(self.lp_balances@).no_duplicates()
        &&& self.lp_supply == lp_sum(self.lp_balances@)
    }

    /// Everything but the inventory, the coin balance and the curve state is unchanged.
    pub open spec fn same_setup(&self, other: &Pair) -> bool {
        &&& self.curve == other.curve
        &&& self.pool_type == other.pool_type
        &&& self.nft_token == other.nft_token
        &&& self.fee == other.fee
        &&& self.owner == other.owner
        &&& self.asset_recipient == other.asset_recipient
        &&& self.released_time == other.released_time
        &&& self.pool_id == other.pool_id
    }

    /// Same setup, and the share ledger is unchanged.
    pub open spec fn same_shares(&self, other: &Pair) -> bool {
        &&& self.same_setup(other)
        &&& self.lp_balances@ == other.lp_balances@
        &&& self.lp_supply == other.lp_supply
    }

    /// Why `new` refuses a pool, if it does.
    pub open spec fn new_error(
        curve: Curve,
        pool_type: PoolType,
        spot_price: u128,
        delta: u128,
        fee: u128,
        asset_recipient: Option<String>,
    ) -> Option<AmmError> {
        if pool_type != PoolType::Trade && fee != 0 {
            Some(AmmError::NonTradeFee)
        } else if pool_type != PoolType::Trade && asset_recipient.is_none() {
            Some(AmmError::AssetRecipientRequired)
        } else if pool_type == PoolType::Trade && fee >= MAX_FEE {
            Some(AmmError::FeeExceedsMax)
        } else if pool_type == PoolType::Trade && asset_recipient.is_some() {
            Some(AmmError::AssetRecipientForbidden)
        } else if !curve.valid_delta(delta) {
            Some(AmmError::InvalidDelta)
        } else if !curve.valid_spot_price(spot_price) {
            Some(AmmError::InvalidSpotPrice)
        } else {
            None
        }
    }

    pub fn new(
        curve_type: BondingCurve,
        pool_type: PoolType,
        nft_token: String,
        spot_price: u128,
        delta: u128,
        fee: u128,
        owner: String,
        asset_recipient: Option<String>,
        initial_near_balance: u128,
        released_time: u64,
        pool_id: u64,
    ) -> (r: Result<Pair, AmmError>)
        ensures
            match Self::new_error(Curve { curve_type }, pool_type, spot_price, delta, fee, asset_recipient) {
                Some(e) => r == Err::<Pair, AmmError>(e),
                None => r is Ok,
            },
            r matches Ok(p) ==> {
                &&& p.wf()
                &&& p.curve.curve_type == curve_type
                &&& p.pool_type == pool_type
                &&& p.nft_token == nft_token
                &&& p.spot_price == spot_price
                &&& p.delta == delta
                &&& p.fee == fee
                &&& p.owner == owner
                &&& p.asset_recipient == asset_recipient
                &&& p.near_balance == initial_near_balance
                &&& p.held().len() == 0
                &&& p.lp_balances@.len() == 0
                &&& p.lp_supply == 0
                &&& p.released_time == released_time
                &&& p.pool_id == pool_id
            },
    {
        let curve = Curve::new(curve_type);
        if pool_type == PoolType::Token || pool_type == PoolType::NFT {
            if fee != 0 {
                return Err(AmmError::NonTradeFee);
            }
            if asset_recipient.is_none() {
                return Err(AmmError::AssetRecipientRequired);
            }
        } else {
            if fee >= MAX_FEE {
                return Err(AmmError::FeeExceedsMax);
            }
            if asset_recipient.is_some() {
                return Err(AmmError::AssetRecipientForbidden);
            }
        }
        if !curve.validate_delta(delta) {
            return Err(AmmError::InvalidDelta);
        }
        if !curve.validate_spot_price(spot_price) {
            return Err(AmmError::InvalidSpotPrice);
        }
        let p = Pair {
            curve,
            pool_type,
            nft_token,
            spot_price,
            delta,
            fee,
            owner,
            asset_recipient,
            near_balance: initial_near_balance,
            token_ids_in_pools: Vec::new(),
            released_time,
            pool_id,
            lp_balances: Vec::new(),
            lp_supply: 0,
        };
        assert(p.held() =~= Seq::<Seq<char>>::empty());
        assert(lp_accounts(p.lp_balances@) =~= Seq::<Seq<char>>::empty());
        Ok(p)
    }

    /// Position of token `id` in the inventory.
    fn find_token(&self, id: &String) -> (r: Option<usize>)
        ensures
            match r {
                Some(i) => i < self.held().len() && self.held()[i as int] == id@,
                None => !self.held().contains(id@),
            },
    {
        let mut i: usize = 0;
        while i < self.token_ids_in_pools.len()
            invariant
                i <= self.held().len(),
                self.held().len() == self.token_ids_in_pools@.len(),
                forall|k: int| 0 <= k < i ==> self.held()[k] != id@,
            decreases self.token_ids_in_pools@.len() - i,
        {
            if self.token_ids_in_pools[i].token_id == *id {
                return Some(i);
            }
            i = i + 1;
        }
        None
    }

    /// Records `ids` as held, each tagged with `depositor`; ids already held keep their place
    /// and take the new tag, new ids are appended in order.
    fn internal_add_token_ids(&mut self, depositor: &String, ids: &Vec<String>)
        requires
            old(self).held().no_duplicates(),
        ensures
            final(self).held().no_duplicates(),
            final(self).held().len() >= old(self).held().len(),
            final(self).held().subrange(0, old(self).held().len() as int) == old(self).held(),
            forall|x: Seq<char>| #[trigger] final(self).held().contains(x)
                <==> (old(self).held().contains(x) || views(ids@).contains(x)),
            final(self).held() == add_ids(old(self).held(), views(ids@)),
            retagged(final(self).token_ids_in_pools@, old(self).token_ids_in_pools@, views(ids@), depositor@),
            final(self).same_shares(old(self)),
            final(self).near_balance == old(self).near_balance,
            final(self).spot_price == old(self).spot_price,
            final(self).delta == old(self).delta,
    {
        let ghost start = self.held();
        let ghost start_entries = self.token_ids_in_pools@;
        assert(views(ids@.subrange(0, 0)) =~= Seq::<Seq<char>>::empty());
        let mut k: usize = 0;
        while k < ids.len()
            invariant
                k <= ids@.len(),
                self.held().no_duplicates(),
                self.held().len() >= start.len(),
                self.held().subrange(0, start.len() as int) == start,
                forall|x: Seq<char>| #[trigger] self.held().contains(x)
                    <==> (start.contains(x) || views(ids@.subrange(0, k as int)).contains(x)),
                self.same_shares(old(self)),
                self.near_balance == old(self).near_balance,
                self.spot_price == old(self).spot_price,
                self.delta == old(self).delta,
                start == old(self).held(),
                start == ids_of(start_entries),
                start_entries == old(self).token_ids_in_pools@,
                self.held() == add_ids(start, views(ids@.subrange(0, k as int))),
                retagged(self.token_ids_in_pools@, start_entries, views(ids@.subrange(0, k as int)), depositor@),
            decreases ids@.len() - k,
        {
            let ghost before = self.held();
            let ghost before_entries = self.token_ids_in_pools@;
            let ghost pre = views(ids@.subrange(0, k as int));
            let ghost t = ids@[k as int]@;
            assert(views(ids@.subrange(0, k + 1)) =~= pre.push(t));
            assert(views(ids@.subrange(0, k + 1)).drop_last() =~= pre);
            proof {
                lemma_push_contains(pre, t);
            }
            let found = self.find_token(&ids[k]);
            if let Some(i) = found {
                assert(before[i as int] == t);
                assert(before.contains(t));
                let entry = DepositedToken { token_id: ids[k].clone(), depositor: depositor.clone() };
                self.token_ids_in_pools.set(i, entry);
                assert(self.held() =~= before);
                assert forall|m: int| 0 <= m < self.token_ids_in_pools@.len() implies ({
                    let e = #[trigger] self.token_ids_in_pools@[m];
                    &&& (pre.push(t).contains(ids_of(self.token_ids_in_pools@)[m]) ==> e.depositor@ == depositor@)
                    &&& (!pre.push(t).contains(ids_of(self.token_ids_in_pools@)[m]) ==> m < start_entries.len()
                        && e == start_entries[m])
                }) by {
                    assert(ids_of(self.token_ids_in_pools@)[m] == before[m]);
                    assert(ids_of(before_entries)[m] == before[m]);
                    if m != i {
                        assert(self.token_ids_in_pools@[m] == before_entries[m]);
                        assert(before[m] != t);
                    }
                }
            } else {
                let entry = DepositedToken { token_id: ids[k].clone(), depositor: depositor.clone() };
                self.token_ids_in_pools.push(entry);
                assert(self.held() =~= before.push(t));
                proof {
                    lemma_push_contains(before, t);
                }
                assert forall|m: int| 0 <= m < self.token_ids_in_pools@.len() implies ({
                    let e = #[trigger] self.token_ids_in_pools@[m];
                    &&& (pre.push(t).contains(ids_of(self.token_ids_in_pools@)[m]) ==> e.depositor@ == depositor@)
                    &&& (!pre.push(t).contains(ids_of(self.token_ids_in_pools@)[m]) ==> m < start_entries.len()
                        && e == start_entries[m])
                }) by {
                    assert(ids_of(self.token_ids_in_pools@)[m] == self.held()[m]);
                    if m < before_entries.len() {
                        assert(self.token_ids_in_pools@[m] == before_entries[m]);
                        assert(ids_of(before_entries)[m] == before[m]);
                        assert(before.contains(before[m]));
                    }
                }
                assert(self.held().subrange(0, start.len() as int) =~= before.subrange(0, start.len() as int));
                assert forall|i: int, j: int| 0 <= i < j < self.held().len() implies self.held()[i] != self.held()[j] by {
                    if j == self.held().len() - 1 {
                        assert(before.contains(before[i]));
                    }
                }
            }
            k = k + 1;
        }
        assert(ids@.subrange(0, ids@.len() as int) =~= ids@);
    }

    /// Removes and returns the first `n` token ids.
    fn take_tokens(&mut self, n: usize) -> (r: Vec<String>)
        requires
            n <= old(self).held().len(),
            old(self).held().no_duplicates(),
        ensures
            views(r@) == old(self).held().subrange(0, n as int),
            final(self).held() == old(self).held().subrange(n as int, old(self).held().len() as int),
            final(self).held().no_duplicates(),
            final(self).same_shares(old(self)),
            final(self).near_balance == old(self).near_balance,
            final(self).spot_price == old(self).spot_price,
            final(self).delta == old(self).delta,
    {
        let mut head = self.token_ids_in_pools.split_off(n);
        std::mem::swap(&mut head, &mut self.token_ids_in_pools);
        let mut out: Vec<String> = Vec::new();
        let mut k: usize = 0;
        while k < head.len()
            invariant
                k <= head@.len(),
                views(out@) == ids_of(head@).subrange(0, k as int),
            decreases head@.len() - k,
        {
            let ghost prev = out@;
            out.push(head[k].token_id.clone());
            assert(out@ =~= prev.push(head@[k as int].token_id));
            assert(views(out@) =~= views(prev).push(head@[k as int].token_id@));
            assert(views(out@) =~= ids_of(head@).subrange(0, k + 1));
            k = k + 1;
        }
        assert(ids_of(head@) =~= old(self).held().subrange(0, n as int));
        assert(self.held() =~= old(self).held().subrange(n as int, old(self).held().len() as int));
        assert(ids_of(head@).subrange(0, head@.len() as int) =~= ids_of(head@));
        out
    }

    /// Whether every id of `ids` is held and none repeats.
    fn check_tokens(&self, ids: &Vec<String>) -> (r: bool)
        ensures
            r == (views(ids@).no_duplicates()
                && forall|x: Seq<char>| views(ids@).contains(x) ==> #[trigger] self.held().contains(x)),
    {
        let mut k: usize = 0;
        while k < ids.len()
            invariant
                k <= ids@.len(),
                views(ids@.subrange(0, k as int)).no_duplicates(),
                forall|x: Seq<char>| views(ids@.subrange(0, k as int)).contains(x) ==> #[trigger] self.held().contains(x),
            decreases ids@.len() - k,
        {
            let ghost pre = views(ids@.subrange(0, k as int));
            assert(views(ids@.subrange(0, k + 1)) =~= pre.push(ids@[k as int]@));
            if self.find_token(&ids[k]).is_none() {
                assert(views(ids@).contains(ids@[k as int]@)) by {
                    assert(views(ids@)[k as int] == ids@[k as int]@);
                }
                return false;
            }
            let mut j: usize = 0;
            while j < k
                invariant
                    j <= k < ids@.len(),
                    forall|m: int| 0 <= m < j ==> ids@[m]@ != ids@[k as int]@,
                decreases k - j,
            {
                if ids[j] == ids[k] {
                    assert(!views(ids@).no_duplicates()) by {
                        assert(views(ids@)[j as int] == views(ids@)[k as int]);
                    }
                    return false;
                }
                j = j + 1;
            }
            assert forall|i: int, m: int| 0 <= i < m < pre.len() + 1 implies
                #[trigger] views(ids@.subrange(0, k + 1))[i] != #[trigger] views(ids@.subrange(0, k + 1))[m] by {
                if m == k {
                    assert(views(ids@.subrange(0, k + 1))[i] == ids@[i]@);
                }
            }
            k = k + 1;
        }
        assert(ids@.subrange(0, ids@.len() as int) =~= ids@);
        true
    }

    /// Removes `ids` from the inventory; refused when one is not held or is named twice.
    fn remove_tokens(&mut self, ids: &Vec<String>) -> (r: Result<(), AmmError>)
        requires
            old(self).held().no_duplicates(),
        ensures
            r is Ok <==> (views(ids@).no_duplicates()
                && forall|x: Seq<char>| views(ids@).contains(x) ==> #[trigger] old(self).held().contains(x)),
            r is Err ==> r == Err::<(), AmmError>(AmmError::TokenNotInPool) && *final(self) == *old(self),
            r is Ok ==> {
                &&& final(self).held().no_duplicates()
                &&& final(self).held().len() + ids@.len() == old(self).held().len()
                &&& forall|x: Seq<char>| #[trigger] final(self).held().contains(x)
                    <==> (old(self).held().contains(x) && !views(ids@).contains(x))
            },
            final(self).same_shares(old(self)),
            final(self).near_balance == old(self).near_balance,
            final(self).spot_price == old(self).spot_price,
            final(self).delta == old(self).delta,
    {
        if !self.check_tokens(ids) {
            return Err(AmmError::TokenNotInPool);
        }
        assert(ids@.subrange(0, ids@.len() as int) =~= ids@);
        let ghost start = self.held();
        let mut k: usize = 0;
        while k < ids.len()
            invariant
                k <= ids@.len(),
                views(ids@).no_duplicates(),
                forall|x: Seq<char>| views(ids@).contains(x) ==> #[trigger] start.contains(x),
                start == old(self).held(),
                start.no_duplicates(),
                self.held().no_duplicates(),
                self.held().len() + k == start.len(),
                forall|x: Seq<char>| #[trigger] self.held().contains(x)
                    <==> (start.contains(x) && !views(ids@.subrange(0, k as int)).contains(x)),
                self.same_shares(old(self)),
                self.near_balance == old(self).near_balance,
                self.spot_price == old(self).spot_price,
                self.delta == old(self).delta,
            decreases ids@.len() - k,
        {
            let ghost before = self.held();
            let ghost id = ids@[k as int]@;
            assert(views(ids@.subrange(0, k + 1)) =~= views(ids@.subrange(0, k as int)).push(id));
            proof {
                lemma_push_contains(views(ids@.subrange(0, k as int)), id);
            }
            assert(views(ids@)[k as int] == id);
            assert(!views(ids@.subrange(0, k as int)).contains(id)) by {
                if views(ids@.subrange(0, k as int)).contains(id) {
                    let m = choose|m: int| 0 <= m < k && views(ids@.subrange(0, k as int))[m] == id;
                    assert(views(ids@)[m] == id);
                }
            }
            match self.find_token(&ids[k]) {
                Some(i) => {
                    self.token_ids_in_pools.remove(i);
                    assert(self.held() =~= before.remove(i as int));
                    assert forall|x: Seq<char>| #[trigger] self.held().contains(x)
                        <==> (before.contains(x) && x != id) by {
                        if before.contains(x) && x != id {
                            let m = choose|m: int| 0 <= m < before.len() && before[m] == x;
                            if m < i {
                                assert(self.held()[m] == x);
                            } else {
                                assert(self.held()[m - 1] == x);
                            }
                        }
                        if self.held().contains(x) {
                            let m = choose|m: int| 0 <= m < self.held().len() && self.held()[m] == x;
                            if m < i {
                                assert(before[m] == x);
                            } else {
                                assert(before[m + 1] == x);
                            }
                        }
                    }
                },
                None => {
                    assert(views(ids@).contains(id));
                    assert(false);
                },
            }
            k = k + 1;
        }
        assert(ids@.subrange(0, ids@.len() as int) =~= ids@);
        Ok(())
    }
}

/// Coin handed out by a burn of `lp` shares of pool `p`, or `None` when the rounded-up NFT
/// is worth more than the proportional coin can cover.
pub open spec fn burn_coin(p: Pair, lp: int, pfm: u128) -> Option<int> {
    let h = p.held().len() as int;
    let s = p.lp_supply as int;
    let raw = burn_raw(h, p.spot_price as int, lp, s);
    if (h * lp) % s == 0 {
        Some(raw)
    } else {
        let q = p.curve.buy_quote(p.spot_price, p.delta, 1, p.fee, pfm);
        let value = (burn_count(h, lp, s) - 1) * p.spot_price + q.new_spot_price;
        if value < raw || value - raw > raw {
            None
        } else {
            Some(raw - (value - raw))
        }
    }
}

impl Pair {
    /// Registers `account_id` for shares with a zero balance; a registered account keeps its balance.
    pub fn internal_register_account_lp(&mut self, account_id: &String)
        requires
            old(self).wf(),
        ensures
            final(self).wf(),
            final(self).registered(account_id@),
            old(self).registered(account_id@) ==> *final(self) == *old(self),
            !old(self).registered(account_id@) ==> final(self).lp_of(account_id@) == 0,
            forall|a: Seq<char>| #[trigger] final(self).lp_of(a) == old(self).lp_of(a),
            forall|a: Seq<char>| old(self).registered(a) ==> #[trigger] final(self).registered(a),
            final(self).lp_supply == old(self).lp_supply,
            final(self).same_setup(old(self)),
            final(self).held() == old(self).held(),
            final(self).token_ids_in_pools@ == old(self).token_ids_in_pools@,
            final(self).near_balance == old(self).near_balance,
            final(self).spot_price == old(self).spot_price,
            final(self).delta == old(self).delta,
    {
        match find_lp(&self.lp_balances, account_id) {
            Some(i) => {
                assert(lp_accounts(self.lp_balances@)[i as int] == account_id@);
            },
            None => {
                let ghost before = self.lp_balances@;
                let e = LpBalance { account_id: account_id.clone(), balance: 0 };
                self.lp_balances.push(e);
                proof {
                    lemma_lp_push(before, e);
                    lemma_lp_absent(before, account_id@);
                    lemma_push_contains(lp_accounts(before), account_id@);
                    assert forall|i: int, j: int| 0 <= i < j < lp_accounts(self.lp_balances@).len()
                        implies lp_accounts(self.lp_balances@)[i] != lp_accounts(self.lp_balances@)[j] by {
                        if j == before.len() {
                            assert(lp_accounts(before).contains(lp_accounts(before)[i]));
                        }
                    }
                }
            },
        }
    }

    /// Credits `lp` new shares to `account_id`; nothing happens when `lp` is zero.
    fn mint_lp(&mut self, account_id: &String, lp: u128) -> (r: Result<(), AmmError>)
        requires
            old(self).wf(),
        ensures
            r is Ok <==> (lp == 0 || fits_u128(old(self).lp_supply + lp)),
            lp == 0 ==> *final(self) == *old(self),
            r is Err ==> r == Err::<(), AmmError>(AmmError::BalanceOverflow) && *final(self) == *old(self),
            final(self).wf(),
            r is Ok ==> {
                &&& final(self).lp_supply == old(self).lp_supply + lp
                &&& forall|a: Seq<char>| #[trigger] final(self).lp_of(a)
                    == if a == account_id@ { old(self).lp_of(a) + lp } else { old(self).lp_of(a) }
                &&& lp > 0 ==> final(self).registered(account_id@)
            },
            forall|a: Seq<char>| old(self).registered(a) ==> #[trigger] final(self).registered(a),
            final(self).same_setup(old(self)),
            final(self).held() == old(self).held(),
            final(self).token_ids_in_pools@ == old(self).token_ids_in_pools@,
            final(self).near_balance == old(self).near_balance,
            final(self).spot_price == old(self).spot_price,
            final(self).delta == old(self).delta,
    {
        if lp == 0 {
            return Ok(());
        }
        if lp > u128::MAX - self.lp_supply {
            return Err(AmmError::BalanceOverflow);
        }
        self.internal_register_account_lp(account_id);
        let i = match find_lp(&self.lp_balances, account_id) {
            Some(i) => i,
            None => {
                proof {
                    assert(false);
                }
                return Err(AmmError::BalanceOverflow);
            },
        };
        let ghost before = self.lp_balances@;
        proof {
            lemma_lp_one_bounded(before, i as int);
            assert forall|a: Seq<char>| #[trigger] lp_balance(before, a) == old(self).lp_of(a) by {
                assert(self.lp_of(a) == old(self).lp_of(a));
            }
            assert forall|a: Seq<char>| old(self).registered(a) implies #[trigger] lp_accounts(before).contains(a) by {
                assert(self.registered(a));
            }
        }
        let prev = self.lp_balances[i].balance;
        let e = LpBalance { account_id: account_id.clone(), balance: prev + lp };
        self.lp_balances.set(i, e);
        self.lp_supply = self.lp_supply + lp;
        proof {
            lemma_lp_sum_update(before, i as int, e);
            lemma_lp_update(before, i as int, e);
            lemma_lp_at(before, i as int);
            assert(lp_accounts(self.lp_balances@) == lp_accounts(before));
            assert forall|a: Seq<char>| #[trigger] self.lp_of(a)
                == if a == account_id@ { old(self).lp_of(a) + lp } else { old(self).lp_of(a) } by {
                assert(self.lp_of(a) == lp_balance(self.lp_balances@, a));
                assert(lp_balance(before, a) == old(self).lp_of(a));
            }
            assert forall|a: Seq<char>| old(self).registered(a) implies #[trigger] self.registered(a) by {
                assert(lp_accounts(before).contains(a));
            }
        }
        Ok(())
    }

    /// Moves `amount` shares from `sender_id` to `receiver_id`.
    pub fn lp_transfer(&mut self, sender_id: &String, receiver_id: &String, amount: u128) -> (r: Result<(), AmmError>)
        requires
            old(self).wf(),
        ensures
            final(self).wf(),
            sender_id@ == receiver_id@ ==> r == Err::<(), AmmError>(AmmError::SelfTransfer),
            sender_id@ != receiver_id@ && !old(self).registered(sender_id@)
                ==> r == Err::<(), AmmError>(AmmError::AccountNotRegistered),
            sender_id@ != receiver_id@ && old(self).registered(sender_id@) && old(self).lp_of(sender_id@) < amount
                ==> r == Err::<(), AmmError>(AmmError::InsufficientLpBalance),
            sender_id@ != receiver_id@ && old(self).registered(sender_id@) && old(self).lp_of(sender_id@) >= amount
                && !old(self).registered(receiver_id@)
                ==> r == Err::<(), AmmError>(AmmError::AccountNotRegistered),
            r is Ok <==> (sender_id@ != receiver_id@ && old(self).registered(sender_id@)
                && old(self).registered(receiver_id@) && old(self).lp_of(sender_id@) >= amount),
            r is Err ==> *final(self) == *old(self),
            r is Ok ==> forall|a: Seq<char>| #[trigger] final(self).lp_of(a) == if a == sender_id@ {
                old(self).lp_of(a) - amount
            } else if a == receiver_id@ {
                old(self).lp_of(a) + amount
            } else {
                old(self).lp_of(a)
            },
            forall|a: Seq<char>| #[trigger] final(self).registered(a) == old(self).registered(a),
            final(self).lp_supply == old(self).lp_supply,
            final(self).same_setup(old(self)),
            final(self).held() == old(self).held(),
            final(self).token_ids_in_pools@ == old(self).token_ids_in_pools@,
            final(self).near_balance == old(self).near_balance,
            final(self).spot_price == old(self).spot_price,
            final(self).delta == old(self).delta,
    {
        if *sender_id == *receiver_id {
            return Err(AmmError::SelfTransfer);
        }
        let i = match find_lp(&self.lp_balances, sender_id) {
            Some(i) => i,
            None => return Err(AmmError::AccountNotRegistered),
        };
        proof {
            assert(lp_accounts(self.lp_balances@)[i as int] == sender_id@);
            lemma_lp_at(self.lp_balances@, i as int);
        }
        let from_balance = self.lp_balances[i].balance;
        if from_balance < amount {
            return Err(AmmError::InsufficientLpBalance);
        }
        let j = match find_lp(&self.lp_balances, receiver_id) {
            Some(j) => j,
            None => return Err(AmmError::AccountNotRegistered),
        };
        proof {
            assert(lp_accounts(self.lp_balances@)[j as int] == receiver_id@);
            lemma_lp_at(self.lp_balances@, j as int);
            lemma_lp_pair_bounded(self.lp_balances@, i as int, j as int);
        }
        let to_balance = self.lp_balances[j].balance;
        let ghost s0 = self.lp_balances@;
        let e1 = LpBalance { account_id: sender_id.clone(), balance: from_balance - amount };
        self.lp_balances.set(i, e1);
        let ghost s1 = self.lp_balances@;
        proof {
            lemma_lp_sum_update(s0, i as int, e1);
            lemma_lp_update(s0, i as int, e1);
            assert(s1[j as int] == s0[j as int]);
        }
        let e2 = LpBalance { account_id: receiver_id.clone(), balance: to_balance + amount };
        self.lp_balances.set(j, e2);
        proof {
            lemma_lp_sum_update(s1, j as int, e2);
            lemma_lp_update(s1, j as int, e2);
        }
        Ok(())
    }

    /// Refuses a caller other than the pool's owner.
    pub fn assert_owner(&self, caller: &String) -> (r: Result<(), AmmError>)
        ensures
            r is Ok <==> caller@ == self.owner@,
            r is Err ==> r == Err::<(), AmmError>(AmmError::OnlyPoolOwner),
    {
        if *caller == self.owner {
            Ok(())
        } else {
            Err(AmmError::OnlyPoolOwner)
        }
    }

    /// Refuses while the pool's lock has not expired at time `now` (unix seconds).
    pub fn assert_release(&self, now: u64) -> (r: Result<(), AmmError>)
        ensures
            r is Ok <==> self.released_time <= now,
            r is Err ==> r == Err::<(), AmmError>(AmmError::NotReleased),
    {
        if self.released_time <= now {
            Ok(())
        } else {
            Err(AmmError::NotReleased)
        }
    }

    /// The checks that guard an owner's direct withdrawal, in order.
    pub open spec fn withdraw_error(&self, caller: Seq<char>, now: u64) -> Option<AmmError> {
        if self.pool_type == PoolType::Trade {
            Some(AmmError::TradePoolWithdrawal)
        } else if caller != self.owner@ {
            Some(AmmError::OnlyPoolOwner)
        } else if self.released_time > now {
            Some(AmmError::NotReleased)
        } else {
            None
        }
    }

    /// Owner takes up to `near_amount` coin out of a Token or NFT pool once released;
    /// returns the amount actually taken.
    pub fn withdraw_near(&mut self, caller: &String, near_amount: u128, now: u64) -> (r: Result<u128, AmmError>)
        requires
            old(self).wf(),
        ensures
            final(self).wf(),
            match old(self).withdraw_error(caller@, now) {
                Some(e) => r == Err::<u128, AmmError>(e) && *final(self) == *old(self),
                None => {
                    let taken = if old(self).near_balance > near_amount { near_amount } else { old(self).near_balance };
                    &&& r == Ok::<u128, AmmError>(taken)
                    &&& final(self).near_balance == old(self).near_balance - taken
                },
            },
            final(self).same_shares(old(self)),
            final(self).held() == old(self).held(),
            final(self).token_ids_in_pools@ == old(self).token_ids_in_pools@,
            final(self).spot_price == old(self).spot_price,
            final(self).delta == old(self).delta,
    {
        if self.pool_type == PoolType::Trade {
            return Err(AmmError::TradePoolWithdrawal);
        }
        self.assert_owner(caller)?;
        self.assert_release(now)?;
        if self.near_balance > near_amount {
            self.near_balance = self.near_balance - near_amount;
            return Ok(near_amount);
        }
        let ret = self.near_balance;
        self.near_balance = 0;
        Ok(ret)
    }

    /// Owner takes the NFTs `token_ids` out of a Token or NFT pool once released.
    pub fn withdraw_nfts(&mut self, caller: &String, token_ids: &Vec<String>, now: u64) -> (r: Result<(), AmmError>)
        requires
            old(self).wf(),
        ensures
            final(self).wf(),
            match old(self).withdraw_error(caller@, now) {
                Some(e) => r == Err::<(), AmmError>(e) && *final(self) == *old(self),
                None => {
                    &&& r is Ok <==> (views(token_ids@).no_duplicates()
                        && forall|x: Seq<char>| views(token_ids@).contains(x) ==> #[trigger] old(self).held().contains(x))
                    &&& r is Err ==> r == Err::<(), AmmError>(AmmError::TokenNotInPool) && *final(self) == *old(self)
                    &&& r is Ok ==> forall|x: Seq<char>| #[trigger] final(self).held().contains(x)
                        <==> (old(self).held().contains(x) && !views(token_ids@).contains(x))
                },
            },
            final(self).same_shares(old(self)),
            final(self).near_balance == old(self).near_balance,
            final(self).spot_price == old(self).spot_price,
            final(self).delta == old(self).delta,
    {
        if self.pool_type == PoolType::Trade {
            return Err(AmmError::TradePoolWithdrawal);
        }
        self.assert_owner(caller)?;
        self.assert_release(now)?;
        self.remove_tokens(token_ids)
    }
}

proof fn lemma_buy_keeps_curve_valid(p: Pair, n: u64, pfm: u128)
    requires
        p.wf(),
        p.curve.buy_quote(p.spot_price, p.delta, n, p.fee, pfm).error_code == CurveErrorCode::Success,
    ensures
        p.curve.valid_spot_price(p.curve.buy_quote(p.spot_price, p.delta, n, p.fee, pfm).new_spot_price),
        p.curve.buy_quote(p.spot_price, p.delta, n, p.fee, pfm).new_delta == p.delta,
        p.curve.buy_quote(p.spot_price, p.delta, n, p.fee, pfm).protocol_fee.value()
            <= p.curve.buy_quote(p.spot_price, p.delta, n, p.fee, pfm).input_value.value(),
{
    match p.curve.curve_type {
        BondingCurve::LinearCurve => {
            let g = crate::linear::buy_gross(p.spot_price as int, p.delta as int, n as int);
            assert(g >= 0) by (nonlinear_arith)
                requires
                    g == n * (p.spot_price + p.delta) + (n * (n - 1) * p.delta) / 2,
                    n >= 1,
                    p.spot_price >= 0,
                    p.delta >= 0,
            ;
            lemma_part_nonneg(g, p.fee as int);
            lemma_part_nonneg(g, pfm as int);
            crate::wide::lemma_u256_of_value(gross_up(g, p.fee as int, pfm as int));
            crate::wide::lemma_u256_of_value(part_of(g, pfm as int));
        },
        BondingCurve::ExponentialCurve => {
            exponential::lemma_fpow_grows(p.delta as int, n as nat, WAD as int);
            let pow = exponential::buy_pow(p.delta as int, n as int);
            let spot = p.spot_price as int;
            assert(spot * pow / (WAD as int) >= spot) by (nonlinear_arith)
                requires
                    pow >= WAD,
                    spot >= 0,
            ;
            let g = exponential::buy_gross(spot, p.delta as int, n as int);
            assert(g >= 0) by {
                let f = exponential::buy_first_price(spot, p.delta as int);
                let ser = exponential::buy_series(p.delta as int, n as int);
                assert(f >= 0) by (nonlinear_arith)
                    requires
                        f == spot * p.delta / (WAD as int),
                        spot >= 0,
                        p.delta >= 0,
                ;
                assert(ser >= 0) by (nonlinear_arith)
                    requires
                        ser == (pow - WAD) * (WAD as int) / (p.delta - WAD),
                        pow >= WAD,
                        p.delta > WAD,
                ;
                assert(g >= 0) by (nonlinear_arith)
                    requires
                        g == f * ser / (WAD as int),
                        f >= 0,
                        ser >= 0,
                ;
            }
            lemma_part_nonneg(g, p.fee as int);
            lemma_part_nonneg(g, pfm as int);
            crate::wide::lemma_u256_of_value(gross_up(g, p.fee as int, pfm as int));
            crate::wide::lemma_u256_of_value(part_of(g, pfm as int));
        },
    }
}

impl Pair {
    /// The buy quote for `n` NFTs at the pool's current curve state.
    pub open spec fn buy_quote(&self, n: u64, pfm: u128) -> crate::quote::BuyInfo {
        self.curve.buy_quote(self.spot_price, self.delta, n, self.fee, pfm)
    }

    /// The sell quote for `n` NFTs at the pool's current curve state.
    pub open spec fn sell_quote(&self, n: u64, pfm: u128) -> crate::quote::SellInfo {
        self.curve.sell_quote(self.spot_price, self.delta, n, self.fee, pfm)
    }

    /// Why a buy of `n` NFTs with budget `max_in` is refused, if it is.
    pub open spec fn buy_error(&self, n: u64, max_in: u128, pfm: u128) -> Option<AmmError> {
        let q = self.buy_quote(n, pfm);
        if q.error_code != CurveErrorCode::Success {
            Some(AmmError::QuoteFailed(q.error_code))
        } else if q.input_value.value() > max_in {
            Some(AmmError::NotEnoughPayment)
        } else if self.asset_recipient.is_none() && !fits_u128(self.near_balance + q.input_value.value() - q.protocol_fee.value()) {
            Some(AmmError::BalanceOverflow)
        } else {
            None
        }
    }

    /// Prices a buy of `num_nfts`, checks it against `max_expected_near_input`, and moves
    /// the curve; a Trade pool keeps the input net of the protocol fee.
    fn calculate_buy_info_and_update_pool(
        &mut self,
        num_nfts: u64,
        max_expected_near_input: u128,
        protocol_fee_multiplier: u128,
    ) -> (r: Result<(u128, u128), AmmError>)
        requires
            old(self).wf(),
        ensures
            final(self).wf(),
            match old(self).buy_error(num_nfts, max_expected_near_input, protocol_fee_multiplier) {
                Some(e) => r == Err::<(u128, u128), AmmError>(e) && *final(self) == *old(self),
                None => {
                    let q = old(self).buy_quote(num_nfts, protocol_fee_multiplier);
                    &&& r == Ok::<(u128, u128), AmmError>((q.protocol_fee.value() as u128, q.input_value.value() as u128))
                    &&& q.protocol_fee.value() <= q.input_value.value() <= max_expected_near_input
                    &&& final(self).spot_price == q.new_spot_price
                    &&& final(self).delta == q.new_delta
                    &&& final(self).near_balance == if old(self).asset_recipient.is_none() {
                        old(self).near_balance + q.input_value.value() - q.protocol_fee.value()
                    } else {
                        old(self).near_balance as int
                    }
                },
            },
            final(self).same_shares(old(self)),
            final(self).token_ids_in_pools@ == old(self).token_ids_in_pools@,
    {
        let buy_info = self.curve.get_buy_info(
            self.spot_price,
            self.delta,
            num_nfts,
            self.fee,
            protocol_fee_multiplier,
        );
        if buy_info.error_code != CurveErrorCode::Success {
            return Err(AmmError::QuoteFailed(buy_info.error_code));
        }
        proof {
            lemma_buy_keeps_curve_valid(*self, num_nfts, protocol_fee_multiplier);
        }
        if !buy_info.input_value.le(&U256::from_u128(max_expected_near_input)) {
            return Err(AmmError::NotEnoughPayment);
        }
        let input_value = match buy_info.input_value.as_u128() {
            Some(v) => v,
            None => return Err(AmmError::NotEnoughPayment),
        };
        let protocol_fee = match buy_info.protocol_fee.as_u128() {
            Some(v) => v,
            None => return Err(AmmError::NotEnoughPayment),
        };
        let mut new_balance = self.near_balance;
        if self.asset_recipient.is_none() {
            let net = input_value - protocol_fee;
            if net > u128::MAX - self.near_balance {
                return Err(AmmError::BalanceOverflow);
            }
            new_balance = self.near_balance + net;
        }
        self.spot_price = buy_info.new_spot_price;
        self.delta = buy_info.new_delta;
        self.near_balance = new_balance;
        Ok((protocol_fee, input_value))
    }

    /// Why a swap of coin for `n` NFTs is refused before pricing, if it is.
    pub open spec fn buy_shape_error(&self, n: int) -> Option<AmmError> {
        if self.pool_type == PoolType::Token {
            Some(AmmError::WrongPoolType)
        } else if n == 0 || n > self.held().len() {
            Some(AmmError::InvalidItemCount)
        } else {
            None
        }
    }

    /// Sells the first `num_nfts` NFTs of the inventory for at most `deposit_near_amount`;
    /// returns the protocol fee, the coin charged and the NFTs handed out.
    pub fn swap_near_for_any_nfts(
        &mut self,
        deposit_near_amount: u128,
        num_nfts: u64,
        protocol_fee_multiplier: u128,
    ) -> (r: Result<(u128, u128, Vec<String>), AmmError>)
        requires
            old(self).wf(),
        ensures
            final(self).wf(),
            match old(self).buy_shape_error(num_nfts as int) {
                Some(e) => r == Err::<(u128, u128, Vec<String>), AmmError>(e) && *final(self) == *old(self),
                None => match old(self).buy_error(num_nfts, deposit_near_amount, protocol_fee_multiplier) {
                    Some(e) => r == Err::<(u128, u128, Vec<String>), AmmError>(e) && *final(self) == *old(self),
                    None => {
                        let q = old(self).buy_quote(num_nfts, protocol_fee_multiplier);
                        &&& r is Ok
                        &&& r->Ok_0.0 == q.protocol_fee.value()
                        &&& r->Ok_0.1 == q.input_value.value()
                        &&& views(r->Ok_0.2@) == old(self).held().subrange(0, num_nfts as int)
                        &&& final(self).held() == old(self).held().subrange(num_nfts as int, old(self).held().len() as int)
                        &&& final(self).spot_price == q.new_spot_price
                        &&& final(self).delta == q.new_delta
                        &&& final(self).near_balance == if old(self).asset_recipient.is_none() {
                            old(self).near_balance + q.input_value.value() - q.protocol_fee.value()
                        } else {
                            old(self).near_balance as int
                        }
                    },
                },
            },
            final(self).same_shares(old(self)),
    {
        if self.pool_type == PoolType::Token {
            return Err(AmmError::WrongPoolType);
        }
        let held_count = self.token_ids_in_pools.len();
        if num_nfts == 0 || num_nfts > held_count as u64 {
            return Err(AmmError::InvalidItemCount);
        }
        let count = num_nfts as usize;
        let (protocol_fee, input_amount) = match self.calculate_buy_info_and_update_pool(
            num_nfts,
            deposit_near_amount,
            protocol_fee_multiplier,
        ) {
            Ok(v) => v,
            Err(e) => return Err(e),
        };
        let token_ids = self.take_tokens(count);
        Ok((protocol_fee, input_amount, token_ids))
    }

    /// Sells the NFTs `nft_ids` for at most `deposit_near_amount`; returns the protocol fee and
    /// the coin charged.
    pub fn swap_near_for_specific_nfts(
        &mut self,
        deposit_near_amount: u128,
        nft_ids: &Vec<String>,
        protocol_fee_multiplier: u128,
    ) -> (r: Result<(u128, u128), AmmError>)
        requires
            old(self).wf(),
            nft_ids@.len() <= u64::MAX,
        ensures
            final(self).wf(),
            match old(self).buy_shape_error(nft_ids@.len() as int) {
                Some(e) => r == Err::<(u128, u128), AmmError>(e) && *final(self) == *old(self),
                None => if !(views(nft_ids@).no_duplicates()
                    && forall|x: Seq<char>| views(nft_ids@).contains(x) ==> #[trigger] old(self).held().contains(x)) {
                    r == Err::<(u128, u128), AmmError>(AmmError::TokenNotInPool) && *final(self) == *old(self)
                } else {
                    match old(self).buy_error(nft_ids@.len() as u64, deposit_near_amount, protocol_fee_multiplier) {
                        Some(e) => r == Err::<(u128, u128), AmmError>(e) && *final(self) == *old(self),
                        None => {
                            let q = old(self).buy_quote(nft_ids@.len() as u64, protocol_fee_multiplier);
                            &&& r == Ok::<(u128, u128), AmmError>((q.protocol_fee.value() as u128, q.input_value.value() as u128))
                            &&& final(self).held().len() + nft_ids@.len() == old(self).held().len()
                            &&& forall|x: Seq<char>| #[trigger] final(self).held().contains(x)
                                <==> (old(self).held().contains(x) && !views(nft_ids@).contains(x))
                            &&& final(self).spot_price == q.new_spot_price
                            &&& final(self).delta == q.new_delta
                            &&& final(self).near_balance == if old(self).asset_recipient.is_none() {
                                old(self).near_balance + q.input_value.value() - q.protocol_fee.value()
                            } else {
                                old(self).near_balance as int
                            }
                        },
                    }
                },
            },
            final(self).same_shares(old(self)),
    {
        if self.pool_type == PoolType::Token {
            return Err(AmmError::WrongPoolType);
        }
        if nft_ids.len() == 0 || nft_ids.len() > self.token_ids_in_pools.len() {
            return Err(AmmError::InvalidItemCount);
        }
        if !self.check_tokens(nft_ids) {
            return Err(AmmError::TokenNotInPool);
        }
        let (protocol_fee, input_amount) = match self.calculate_buy_info_and_update_pool(
            nft_ids.len() as u64,
            deposit_near_amount,
            protocol_fee_multiplier,
        ) {
            Ok(v) => v,
            Err(e) => return Err(e),
        };
        let removed = self.remove_tokens(nft_ids);
        proof {
            assert(removed is Ok);
        }
        Ok((protocol_fee, input_amount))
    }
}

/// Coin a seller is actually paid out of a pool balance `bal` for a quoted output `out`.
pub open spec fn paid_out(bal: int, out: int) -> int {
    if bal >= out {
        out
    } else {
        bal
    }
}

/// Protocol fee actually captured after paying the seller.
pub open spec fn paid_fee(bal: int, out: int, pf: int) -> int {
    let rest = bal - paid_out(bal, out);
    if rest >= pf {
        pf
    } else {
        rest
    }
}

/// Shares minted by a deposit of `added` NFTs, given the supply before, and the inventory
/// size and coin balance after the deposit.
pub open spec fn deposit_mint(supply: int, added: int, held_after: int, balance_after: int) -> int {
    if supply != 0 && held_after != 0 {
        (supply * added) / held_after
    } else {
        balance_after
    }
}

proof fn lemma_sell_keeps_curve_valid(p: Pair, n: u64, pfm: u128)
    requires
        p.wf(),
        p.curve.sell_quote(p.spot_price, p.delta, n, p.fee, pfm).error_code == CurveErrorCode::Success,
    ensures
        p.curve.valid_spot_price(p.curve.sell_quote(p.spot_price, p.delta, n, p.fee, pfm).new_spot_price),
        p.curve.sell_quote(p.spot_price, p.delta, n, p.fee, pfm).new_delta == p.delta,
{
    if p.curve.curve_type == BondingCurve::ExponentialCurve {
        let d = p.delta as int;
        let inv = exponential::inv_delta(d);
        assert(0 <= inv < WAD) by (nonlinear_arith)
            requires
                inv == (WAD * WAD) / d,
                d > WAD,
        ;
        exponential::lemma_fpow_shrinks(inv, n as nat, WAD as int);
        let ipow = exponential::sell_pow(d, n as int);
        let spot = p.spot_price as int;
        assert(spot * ipow / (WAD as int) <= spot) by (nonlinear_arith)
            requires
                0 <= ipow <= WAD,
                spot >= 0,
        ;
    }
}

impl Pair {
    /// Shares a deposit of `ids` and `amount` coin mints.
    pub open spec fn deposit_minted(&self, ids: Seq<String>, amount: u128) -> int {
        deposit_mint(
            self.lp_supply as int,
            ids.len() as int,
            add_ids(self.held(), views(ids)).len() as int,
            self.near_balance + amount,
        )
    }

    /// Whether a deposit of `ids` and `amount` coin succeeds: a Trade pool needs coin worth
    /// the NFTs at spot price, and balances and supply must stay within 128 bits.
    pub open spec fn deposit_ok(&self, ids: Seq<String>, amount: u128) -> bool {
        let minted = self.deposit_minted(ids, amount);
        &&& !(self.pool_type == PoolType::Trade && ids.len() * self.spot_price > amount)
        &&& fits_u128(self.near_balance + amount)
        &&& fits_u128(minted)
        &&& (minted == 0 || fits_u128(self.lp_supply + minted))
    }

    /// Why a sale of `n` NFTs into the pool is refused once priced, if it is.
    pub open spec fn sell_error(&self, n: u64, min_out: u128, pfm: u128) -> Option<AmmError> {
        let q = self.sell_quote(n, pfm);
        if self.fee + pfm > WAD {
            Some(AmmError::FeeExceedsMax)
        } else if q.error_code != CurveErrorCode::Success {
            Some(AmmError::QuoteFailed(q.error_code))
        } else if paid_out(self.near_balance as int, q.output_value.value()) < min_out {
            Some(AmmError::OutTooLittle)
        } else {
            None
        }
    }

    /// Prices a sale of `num_nfts`, pays the seller and the protocol fee out of the pool's
    /// coin as far as it goes, and moves the curve; returns the fee and output paid.
    fn calculate_sell_info_and_update_pool(
        &mut self,
        num_nfts: u64,
        min_expected_near_output: u128,
        protocol_fee_multiplier: u128,
    ) -> (r: Result<(u128, u128), AmmError>)
        requires
            old(self).wf(),
        ensures
            final(self).wf(),
            match old(self).sell_error(num_nfts, min_expected_near_output, protocol_fee_multiplier) {
                Some(e) => r == Err::<(u128, u128), AmmError>(e) && *final(self) == *old(self),
                None => {
                    let q = old(self).sell_quote(num_nfts, protocol_fee_multiplier);
                    let out = paid_out(old(self).near_balance as int, q.output_value.value());
                    let pf = paid_fee(old(self).near_balance as int, q.output_value.value(), q.protocol_fee.value());
                    &&& r == Ok::<(u128, u128), AmmError>((pf as u128, out as u128))
                    &&& final(self).near_balance == old(self).near_balance - out - pf
                    &&& final(self).spot_price == q.new_spot_price
                    &&& final(self).delta == q.new_delta
                },
            },
            final(self).same_shares(old(self)),
            final(self).token_ids_in_pools@ == old(self).token_ids_in_pools@,
    {
        if protocol_fee_multiplier > WAD - self.fee {
            return Err(AmmError::FeeExceedsMax);
        }
        let sell_info = self.curve.get_sell_info(
            self.spot_price,
            self.delta,
            num_nfts,
            self.fee,
            protocol_fee_multiplier,
        );
        if sell_info.error_code != CurveErrorCode::Success {
            return Err(AmmError::QuoteFailed(sell_info.error_code));
        }
        let mut balance = self.near_balance;
        let output_amount = if sell_info.output_value.le(&U256::from_u128(balance)) {
            match sell_info.output_value.as_u128() {
                Some(v) => v,
                None => balance,
            }
        } else {
            balance
        };
        balance = balance - output_amount;
        let protocol_fee = if sell_info.protocol_fee.le(&U256::from_u128(balance)) {
            match sell_info.protocol_fee.as_u128() {
                Some(v) => v,
                None => balance,
            }
        } else {
            balance
        };
        balance = balance - protocol_fee;
        if output_amount < min_expected_near_output {
            return Err(AmmError::OutTooLittle);
        }
        proof {
            lemma_sell_keeps_curve_valid(*self, num_nfts, protocol_fee_multiplier);
        }
        self.spot_price = sell_info.new_spot_price;
        self.delta = sell_info.new_delta;
        self.near_balance = balance;
        Ok((protocol_fee, output_amount))
    }

    /// Buys the NFTs `nft_ids` from `seller` for at least `min_near_out` coin; returns the
    /// protocol fee and the coin paid. A Trade pool keeps the NFTs, tagged with the seller.
    pub fn swap_nfts_for_near(
        &mut self,
        seller: &String,
        nft_ids: &Vec<String>,
        min_near_out: u128,
        protocol_fee_multiplier: u128,
    ) -> (r: Result<(u128, u128), AmmError>)
        requires
            old(self).wf(),
            nft_ids@.len() <= u64::MAX,
        ensures
            final(self).wf(),
            old(self).pool_type == PoolType::NFT
                ==> r == Err::<(u128, u128), AmmError>(AmmError::WrongPoolType) && *final(self) == *old(self),
            old(self).pool_type != PoolType::NFT && nft_ids@.len() == 0
                ==> r == Err::<(u128, u128), AmmError>(AmmError::InvalidItemCount) && *final(self) == *old(self),
            old(self).pool_type != PoolType::NFT && nft_ids@.len() > 0 ==> match old(self).sell_error(
                nft_ids@.len() as u64,
                min_near_out,
                protocol_fee_multiplier,
            ) {
                Some(e) => r == Err::<(u128, u128), AmmError>(e) && *final(self) == *old(self),
                None => {
                    let q = old(self).sell_quote(nft_ids@.len() as u64, protocol_fee_multiplier);
                    let out = paid_out(old(self).near_balance as int, q.output_value.value());
                    let pf = paid_fee(old(self).near_balance as int, q.output_value.value(), q.protocol_fee.value());
                    &&& r == Ok::<(u128, u128), AmmError>((pf as u128, out as u128))
                    &&& final(self).near_balance == old(self).near_balance - out - pf
                    &&& final(self).spot_price == q.new_spot_price
                    &&& final(self).delta == q.new_delta
                    &&& old(self).asset_recipient.is_some() ==> final(self).token_ids_in_pools@
                        == old(self).token_ids_in_pools@
                    &&& old(self).asset_recipient.is_none() ==> forall|x: Seq<char>| #[trigger] final(self).held().contains(x)
                        <==> (old(self).held().contains(x) || views(nft_ids@).contains(x))
                    &&& old(self).asset_recipient.is_none() ==> final(self).held() == add_ids(old(self).held(), views(nft_ids@))
                    &&& old(self).asset_recipient.is_none() ==> retagged(
                        final(self).token_ids_in_pools@,
                        old(self).token_ids_in_pools@,
                        views(nft_ids@),
                        seller@,
                    )
                },
            },
            final(self).same_shares(old(self)),
    {
        if self.pool_type == PoolType::NFT {
            return Err(AmmError::WrongPoolType);
        }
        if nft_ids.len() == 0 {
            return Err(AmmError::InvalidItemCount);
        }
        let (protocol_fee, output_amount) = match self.calculate_sell_info_and_update_pool(
            nft_ids.len() as u64,
            min_near_out,
            protocol_fee_multiplier,
        ) {
            Ok(v) => v,
            Err(e) => return Err(e),
        };
        if self.asset_recipient.is_none() {
            self.internal_add_token_ids(seller, nft_ids);
        }
        Ok((protocol_fee, output_amount))
    }

    /// Adds `token_ids` (tagged with `depositor`) and `near_amount` coin to the pool and
    /// mints the matching shares to `receiver_id`.
    pub fn deposit_and_mint_lp(
        &mut self,
        depositor: &String,
        receiver_id: &String,
        token_ids: &Vec<String>,
        near_amount: u128,
    ) -> (r: Result<(), AmmError>)
        requires
            old(self).wf(),
        ensures
            final(self).wf(),
            old(self).pool_type == PoolType::Trade && token_ids@.len() * old(self).spot_price > near_amount
                ==> r == Err::<(), AmmError>(AmmError::InvalidAddedLiquidity) && *final(self) == *old(self),
            r is Err ==> r == Err::<(), AmmError>(AmmError::InvalidAddedLiquidity)
                || r == Err::<(), AmmError>(AmmError::BalanceOverflow),
            r is Ok <==> old(self).deposit_ok(token_ids@, near_amount),
            r is Ok ==> {
                let minted = old(self).deposit_minted(token_ids@, near_amount);
                &&& final(self).near_balance == old(self).near_balance + near_amount
                &&& final(self).held() == add_ids(old(self).held(), views(token_ids@))
                &&& retagged(final(self).token_ids_in_pools@, old(self).token_ids_in_pools@, views(token_ids@), depositor@)
                &&& forall|x: Seq<char>| #[trigger] final(self).held().contains(x)
                    <==> (old(self).held().contains(x) || views(token_ids@).contains(x))
                &&& final(self).lp_supply == old(self).lp_supply + minted
                &&& forall|a: Seq<char>| #[trigger] final(self).lp_of(a)
                    == if a == receiver_id@ { old(self).lp_of(a) + minted } else { old(self).lp_of(a) }
                &&& minted == 0 ==> final(self).lp_balances@ == old(self).lp_balances@
            },
            final(self).same_setup(old(self)),
            final(self).spot_price == old(self).spot_price,
            final(self).delta == old(self).delta,
    {
        if self.pool_type == PoolType::Trade {
            let enough = match (token_ids.len() as u128).checked_mul(self.spot_price) {
                Some(v) => v <= near_amount,
                None => false,
            };
            if !enough {
                return Err(AmmError::InvalidAddedLiquidity);
            }
        }
        if near_amount > u128::MAX - self.near_balance {
            return Err(AmmError::BalanceOverflow);
        }
        self.internal_add_token_ids(depositor, token_ids);
        self.near_balance = self.near_balance + near_amount;
        let held_after = self.token_ids_in_pools.len() as u128;
        let ghost minted = old(self).deposit_minted(token_ids@, near_amount);
        assert(held_after == add_ids(old(self).held(), views(token_ids@)).len());
        let mut lp_amount = self.near_balance;
        if self.lp_supply != 0 && held_after != 0 {
            lp_amount = match mul_div(self.lp_supply, token_ids.len() as u128, held_after) {
                Some(v) => v,
                None => return Err(AmmError::BalanceOverflow),
            };
        }
        assert(lp_amount == minted);
        match self.mint_lp(receiver_id, lp_amount) {
            Ok(()) => Ok(()),
            Err(e) => Err(e),
        }
    }
}

impl Pair {
    /// Redeems `lp` shares of `account_id` for a proportional part of the NFTs (rounded up)
    /// and of the coin (reduced by the value of the rounded-up fraction). Returns the protocol
    /// fee reported on the coin, the coin, and the NFTs, which are the first of the inventory.
    pub fn burn_lp(&mut self, account_id: &String, lp: u128, protocol_fee_multiplier: u128) -> (r: Result<
        (u128, u128, Vec<String>),
        AmmError,
    >)
        requires
            old(self).wf(),
        ensures
            final(self).wf(),
            lp == 0 ==> r is Ok && r->Ok_0.0 == 0 && r->Ok_0.1 == 0 && r->Ok_0.2@.len() == 0
                && *final(self) == *old(self),
            lp > 0 && lp > old(self).lp_of(account_id@)
                ==> r == Err::<(u128, u128, Vec<String>), AmmError>(AmmError::InsufficientLpBalance)
                && *final(self) == *old(self),
            r is Err ==> *final(self) == *old(self),
            lp > 0 && lp <= old(self).lp_of(account_id@) ==> match burn_coin(*old(self), lp as int, protocol_fee_multiplier) {
                None => r == Err::<(u128, u128, Vec<String>), AmmError>(AmmError::InternalLiquidity)
                    || r == Err::<(u128, u128, Vec<String>), AmmError>(AmmError::LiquidityTooSmall),
                Some(coin) => if coin > old(self).near_balance {
                    r == Err::<(u128, u128, Vec<String>), AmmError>(AmmError::InsufficientPoolBalance)
                } else if !fits_u128(part_of(coin, protocol_fee_multiplier as int)) {
                    r == Err::<(u128, u128, Vec<String>), AmmError>(AmmError::BalanceOverflow)
                } else {
                    let k = burn_count(old(self).held().len() as int, lp as int, old(self).lp_supply as int);
                    &&& r is Ok
                    &&& r->Ok_0.0 == part_of(coin, protocol_fee_multiplier as int)
                    &&& r->Ok_0.1 == coin
                    &&& views(r->Ok_0.2@) == old(self).held().subrange(0, k)
                    &&& final(self).held() == old(self).held().subrange(k, old(self).held().len() as int)
                    &&& final(self).near_balance == old(self).near_balance - coin
                    &&& final(self).lp_supply == old(self).lp_supply - lp
                    &&& forall|a: Seq<char>| #[trigger] final(self).lp_of(a)
                        == if a == account_id@ { old(self).lp_of(a) - lp } else { old(self).lp_of(a) }
                },
            },
            final(self).same_setup(old(self)),
            final(self).spot_price == old(self).spot_price,
            final(self).delta == old(self).delta,
    {
        if lp == 0 {
            return Ok((0, 0, Vec::new()));
        }
        let i = match find_lp(&self.lp_balances, account_id) {
            Some(i) => i,
            None => {
                proof {
                    lemma_lp_absent(self.lp_balances@, account_id@);
                }
                return Err(AmmError::InsufficientLpBalance);
            },
        };
        proof {
            lemma_lp_at(self.lp_balances@, i as int);
            lemma_lp_one_bounded(self.lp_balances@, i as int);
        }
        let prev = self.lp_balances[i].balance;
        if lp > prev {
            return Err(AmmError::InsufficientLpBalance);
        }
        let supply = self.lp_supply;
        let h = self.token_ids_in_pools.len() as u128;
        let ghost hi = h as int;
        let hs = U256::wide_mul(h, self.spot_price);
        proof {
            crate::wide::lemma_u256_canonical(hs);
        }
        assert(hs.value() * lp / (supply as int) <= hs.value()) by (nonlinear_arith)
            requires
                0 < lp <= supply,
                hs.value() >= 0,
        ;
        assert(hs.value() * lp / (supply as int) >= 0) by (nonlinear_arith)
            requires
                0 < lp <= supply,
                hs.value() >= 0,
        ;
        let raw = match hs.mul_div(lp, supply) {
            Some(v) => v,
            None => {
                proof {
                    assert(false);
                }
                return Err(AmmError::BalanceOverflow);
            },
        };
        assert(h * lp / (supply as int) <= h) by (nonlinear_arith)
            requires
                0 < lp <= supply,
                h >= 0,
        ;
        let floor = match mul_div(h, lp, supply) {
            Some(v) => v,
            None => {
                proof {
                    assert(false);
                }
                return Err(AmmError::BalanceOverflow);
            },
        };
        let exact = mul_eq(floor, supply, h, lp);
        proof {
            vstd::arithmetic::div_mod::lemma_fundamental_div_mod(hi * lp, supply as int);
            assert(exact == ((hi * lp) % (supply as int) == 0)) by (nonlinear_arith)
                requires
                    exact == (floor * supply == hi * lp),
                    floor == (hi * lp) / (supply as int),
                    hi * lp == (supply as int) * ((hi * lp) / (supply as int)) + (hi * lp) % (supply as int),
            ;
        }
        let mut count = floor;
        let mut coin_wide = raw;
        if !exact {
            assert(floor < h) by (nonlinear_arith)
                requires
                    floor == (h * lp) / (supply as int),
                    (h * lp) % (supply as int) != 0,
                    h * lp == (supply as int) * floor + (h * lp) % (supply as int),
                    0 < lp <= supply,
            ;
            count = floor + 1;
            let buy_info = self.curve.get_buy_info(self.spot_price, self.delta, 1, self.fee, protocol_fee_multiplier);
            let base = U256::wide_mul(floor, self.spot_price);
            let value = match base.checked_add(&U256::from_u128(buy_info.new_spot_price)) {
                Some(v) => v,
                None => {
                    proof {
                        assert(floor * self.spot_price + buy_info.new_spot_price < crate::wide::two_256())
                            by (nonlinear_arith)
                            requires
                                floor < h,
                                h <= u64::MAX,
                                self.spot_price <= u128::MAX,
                                buy_info.new_spot_price <= u128::MAX,
                                crate::wide::two_256() == crate::fixed::two_128() * crate::fixed::two_128(),
                                crate::fixed::two_128() == u128::MAX + 1,
                        ;
                    }
                    return Err(AmmError::BalanceOverflow);
                },
            };
            if !raw.le(&value) {
                return Err(AmmError::InternalLiquidity);
            }
            let fraction = value.sub(&raw);
            if !fraction.le(&raw) {
                return Err(AmmError::LiquidityTooSmall);
            }
            coin_wide = raw.sub(&fraction);
        }
        if !coin_wide.le(&U256::from_u128(self.near_balance)) {
            return Err(AmmError::InsufficientPoolBalance);
        }
        let coin = match coin_wide.as_u128() {
            Some(v) => v,
            None => return Err(AmmError::InsufficientPoolBalance),
        };
        let protocol_fee = match mul_div(coin, protocol_fee_multiplier, WAD) {
            Some(v) => v,
            None => return Err(AmmError::BalanceOverflow),
        };
        let token_ids = self.take_tokens(count as usize);
        let ghost before = self.lp_balances@;
        let e = LpBalance { account_id: account_id.clone(), balance: prev - lp };
        self.lp_balances.set(i, e);
        self.lp_supply = self.lp_supply - lp;
        self.near_balance = self.near_balance - coin;
        proof {
            lemma_lp_sum_update(before, i as int, e);
            lemma_lp_update(before, i as int, e);
        }
        Ok((protocol_fee, coin, token_ids))
    }

    /// Owner moves the spot price of a Token or NFT pool; the curve must accept it.
    pub fn change_spot_price(&mut self, caller: &String, new_spot_price: u128) -> (r: Result<(), AmmError>)
        requires
            old(self).wf(),
        ensures
            final(self).wf(),
            r is Ok <==> (caller@ == old(self).owner@ && old(self).pool_type != PoolType::Trade
                && old(self).curve.valid_spot_price(new_spot_price)),
            r is Ok ==> *final(self) == (Pair { spot_price: new_spot_price, ..*old(self) }),
            r is Err ==> *final(self) == *old(self),
    {
        self.assert_owner(caller)?;
        if self.pool_type == PoolType::Trade {
            return Err(AmmError::WrongPoolType);
        }
        if !self.curve.validate_spot_price(new_spot_price) {
            return Err(AmmError::InvalidSpotPrice);
        }
        self.spot_price = new_spot_price;
        Ok(())
    }

    /// Owner changes the delta of a Token or NFT pool; the curve must accept it.
    pub fn change_delta(&mut self, caller: &String, new_delta: u128) -> (r: Result<(), AmmError>)
        requires
            old(self).wf(),
        ensures
            final(self).wf(),
            r is Ok <==> (caller@ == old(self).owner@ && old(self).pool_type != PoolType::Trade
                && old(self).curve.valid_delta(new_delta)),
            r is Ok ==> *final(self) == (Pair { delta: new_delta, ..*old(self) }),
            r is Err ==> *final(self) == *old(self),
    {
        self.assert_owner(caller)?;
        if self.pool_type == PoolType::Trade {
            return Err(AmmError::WrongPoolType);
        }
        if !self.curve.validate_delta(new_delta) {
            return Err(AmmError::InvalidDelta);
        }
        self.delta = new_delta;
        Ok(())
    }

    /// Owner changes the trade fee of a Token or NFT pool; such pools charge no fee, so
    /// only zero is accepted.
    pub fn change_fee(&mut self, caller: &String, new_fee: u128) -> (r: Result<(), AmmError>)
        requires
            old(self).wf(),
        ensures
            final(self).wf(),
            r is Ok <==> (caller@ == old(self).owner@ && old(self).pool_type != PoolType::Trade && new_fee == 0),
            *final(self) == *old(self),
    {
        self.assert_owner(caller)?;
        if self.pool_type == PoolType::Trade {
            return Err(AmmError::WrongPoolType);
        }
        if new_fee != 0 {
            return Err(AmmError::NonTradeFee);
        }
        self.fee = new_fee;
        Ok(())
    }

    /// Owner changes where a Token or NFT pool routes its proceeds; a recipient is required.
    pub fn change_asset_recipient(&mut self, caller: &String, new_asset_recipient: Option<String>) -> (r: Result<
        (),
        AmmError,
    >)
        requires
            old(self).wf(),
        ensures
            final(self).wf(),
            r is Ok <==> (caller@ == old(self).owner@ && old(self).pool_type != PoolType::Trade
                && new_asset_recipient.is_some()),
            r is Ok ==> *final(self) == (Pair { asset_recipient: new_asset_recipient, ..*old(self) }),
            r is Err ==> *final(self) == *old(self),
    {
        self.assert_owner(caller)?;
        if self.pool_type == PoolType::Trade {
            return Err(AmmError::WrongPoolType);
        }
        if new_asset_recipient.is_none() {
            return Err(AmmError::AssetRecipientRequired);
        }
        self.asset_recipient = new_asset_recipient;
        Ok(())
    }
}

} // verus!
