//! The protocol ledger: pool registry, staging area and accumulated protocol fee.
use vstd::prelude::*;
use crate::curve::BondingCurve;
use crate::error::AmmError;
use crate::fees::part_of;
use crate::fixed::{fits_u128, WAD};
use crate::pair::{add_ids, burn_coin, burn_count, Pair, PoolType};
use crate::quote::{BuyInfo, SellInfo};
use crate::seqs::views;
use crate::staging::{
    entry_of, find_account, find_asset, find_id, first_account, first_asset, insert_id, lemma_first_account,
    lemma_first_asset, remove_ids, staged_accounts, staged_ids, AccountDeposit, AssetDeposit,
};

verus! {

/// Protocol fee multiplier used when none is given, 0.1 in WAD units.
pub const DEFAULT_PROTOCOL_FEE: u128 = 100_000_000_000_000_000;

/// Pools created by one owner.
#[derive(Debug)]
pub struct CreatedPools {
    pub owner: String,
    pub pool_ids: Vec<u64>,
}

/// The whole engine state.
#[derive(Debug)]
pub struct Contract {
    pub governance_id: String,
    pub protocol_fee_receiver_id: String,
    pub protocol_fee_credit: u128,
    pub pools: Vec<Pair>,
    pub protocol_fee_multiplier: u128,
    pub account_deposits: Vec<AccountDeposit>,
    pub storage_per_account_creation: u64,
    pub storage_per_nft_deposit: u64,
    pub storage_per_pair_creation: u64,
    pub created_pool_ids: Vec<CreatedPools>,
}

/// `k` is the first created-pools entry of `owner`.
pub open spec fn first_owner(s: Seq<CreatedPools>, owner: Seq<char>, k: int) -> bool {
    0 <= k < s.len() && s[k].owner@ == owner && forall|m: int| 0 <= m < k ==> s[m].owner@ != owner
}

/// Ids of the pools `owner` created, in creation order.
pub open spec fn created_by(s: Seq<CreatedPools>, owner: Seq<char>) -> Seq<u64> {
    if exists|k: int| first_owner(s, owner, k) {
        s[choose|k: int| first_owner(s, owner, k)].pool_ids@
    } else {
        Seq::empty()
    }
}

proof fn lemma_first_owner(s: Seq<CreatedPools>, owner: Seq<char>, k: int)
    requires
        first_owner(s, owner, k),
    ensures
        created_by(s, owner) == s[k].pool_ids@,
{
    let j = choose|j: int| first_owner(s, owner, j);
    if j < k {
        assert(s[j].owner@ != owner);
    } else if j > k {
        assert(s[k].owner@ != owner);
    }
}

/// Changing entry `k` of owner `o` (or appending one for an owner not yet listed) leaves every
/// other owner's list as it was.
proof fn lemma_other_owners(s: Seq<CreatedPools>, t: Seq<CreatedPools>, o: Seq<char>, a: Seq<char>)
    requires
        a != o,
        s.len() <= t.len() <= s.len() + 1,
        forall|m: int| 0 <= m < t.len() ==> (#[trigger] t[m]).owner@ == o || (m < s.len() && t[m] == s[m]),
        forall|m: int| 0 <= m < s.len() && s[m].owner@ != o ==> #[trigger] t[m] == s[m],
    ensures
        created_by(t, a) == created_by(s, a),
{
    if exists|k: int| first_owner(s, a, k) {
        let k = choose|k: int| first_owner(s, a, k);
        assert(t[k] == s[k]);
        assert forall|m: int| 0 <= m < k implies t[m].owner@ != a by {
            if t[m].owner@ != o {
                assert(t[m] == s[m]);
            }
        }
        assert(first_owner(t, a, k));
        lemma_first_owner(s, a, k);
        lemma_first_owner(t, a, k);
    } else {
        if exists|k: int| first_owner(t, a, k) {
            let k = choose|k: int| first_owner(t, a, k);
            assert(k < s.len() && t[k] == s[k]);
            assert forall|m: int| 0 <= m < k implies s[m].owner@ != a by {
                if s[m].owner@ != o {
                    assert(t[m] == s[m]);
                }
            }
            assert(first_owner(s, a, k));
        }
    }
}

impl Contract {
    /// Every pool is well formed and sits at the index of its id.
    pub open spec fn wf(&self) -> bool {
        &&& forall|i: int| 0 <= i < self.pools@.len() ==> (#[trigger] self.pools@[i]).wf() && self.pools@[i].pool_id == i
    }

    /// Whether account `a` has a staging entry.
    pub open spec fn staged(&self, a: Seq<char>) -> bool {
        staged_accounts(self.account_deposits@).contains(a)
    }

    /// Initialises the engine. `governance_id` and `protocol_fee_receiver_id` default to the
    /// caller, the protocol fee multiplier to 0.1; the storage figures are measured by the host.
    pub fn new(
        caller: String,
        governance_id: Option<String>,
        protocol_fee_receiver_id: Option<String>,
        protocol_fee_multiplier: Option<u128>,
        storage_per_account_creation: u64,
        storage_per_nft_deposit: u64,
        storage_per_pair_creation: u64,
    ) -> (r: Result<Contract, AmmError>)
        ensures
            ({
                let pfm = match protocol_fee_multiplier { Some(m) => m, None => DEFAULT_PROTOCOL_FEE };
                &&& r is Ok
                &&& r matches Ok(c) ==> {
                    &&& c.wf()
                    &&& c.pools@.len() == 0
                    &&& c.protocol_fee_multiplier == pfm
                    &&& c.protocol_fee_credit == 0
                    &&& c.governance_id@ == match governance_id { Some(g) => g@, None => caller@ }
                    &&& c.protocol_fee_receiver_id@ == match protocol_fee_receiver_id { Some(g) => g@, None => caller@ }
                    &&& c.storage_per_account_creation == storage_per_account_creation
                    &&& c.storage_per_nft_deposit == storage_per_nft_deposit
                    &&& c.storage_per_pair_creation == storage_per_pair_creation
                }
            }),
    {
        let pfm = match protocol_fee_multiplier {
            Some(m) => m,
            None => DEFAULT_PROTOCOL_FEE,
        };
        let governance = match governance_id {
            Some(g) => g,
            None => caller.clone(),
        };
        let receiver = match protocol_fee_receiver_id {
            Some(g) => g,
            None => caller,
        };
        Ok(Contract {
            governance_id: governance,
            protocol_fee_receiver_id: receiver,
            protocol_fee_credit: 0,
            pools: Vec::new(),
            protocol_fee_multiplier: pfm,
            account_deposits: Vec::new(),
            storage_per_account_creation,
            storage_per_nft_deposit,
            storage_per_pair_creation,
            created_pool_ids: Vec::new(),
        })
    }

    /// Governance names a new protocol-fee receiver.
    pub fn set_protocol_fee_receiver(&mut self, caller: &String, account_id: String) -> (r: Result<(), AmmError>)
        ensures
            r is Ok <==> caller@ == old(self).governance_id@,
            r is Err ==> r == Err::<(), AmmError>(AmmError::OnlyGovernance) && *final(self) == *old(self),
            r is Ok ==> *final(self) == (Contract { protocol_fee_receiver_id: account_id, ..*old(self) }),
    {
        if *caller != self.governance_id {
            return Err(AmmError::OnlyGovernance);
        }
        self.protocol_fee_receiver_id = account_id;
        Ok(())
    }

    /// Prepaid coin of `a`'s staging entry (zero without one).
    pub open spec fn staged_balance(&self, a: Seq<char>) -> int {
        match entry_of(self.account_deposits@, a) {
            Some(e) => e.near_balance as int,
            None => 0,
        }
    }

    /// Creates the staging entry of `account_id` if missing and credits `amount` prepaid coin.
    pub fn internal_register_account(&mut self, account_id: &String, amount: u128) -> (r: Result<(), AmmError>)
        ensures
            r is Ok <==> fits_u128(old(self).staged_balance(account_id@) + amount),
            r is Err ==> r == Err::<(), AmmError>(AmmError::BalanceOverflow),
            r is Ok ==> final(self).staged(account_id@)
                && final(self).staged_balance(account_id@) == old(self).staged_balance(account_id@) + amount,
            forall|a: Seq<char>| old(self).staged(a) ==> #[trigger] final(self).staged(a),
            final(self).pools == old(self).pools,
            final(self).protocol_fee_credit == old(self).protocol_fee_credit,
            final(self).protocol_fee_multiplier == old(self).protocol_fee_multiplier,
            final(self).created_pool_ids == old(self).created_pool_ids,
    {
        let i = match find_account(&self.account_deposits, account_id) {
            Some(i) => {
                proof {
                    lemma_first_account(self.account_deposits@, account_id@, i as int);
                }
                i
            },
            None => {
                let ghost prev = self.account_deposits@;
                if amount > u128::MAX {
                    return Err(AmmError::BalanceOverflow);
                }
                let entry = AccountDeposit {
                    account_id: account_id.clone(),
                    assets: Vec::new(),
                    near_balance: 0,
                    storage_usage: 0,
                };
                self.account_deposits.push(entry);
                proof {
                    assert(staged_accounts(self.account_deposits@) =~= staged_accounts(prev).push(account_id@));
                    crate::seqs::lemma_push_contains(staged_accounts(prev), account_id@);
                    assert forall|k: int| 0 <= k < prev.len() implies self.account_deposits@[k].account_id@ != account_id@ by {
                        assert(staged_accounts(prev)[k] == prev[k].account_id@);
                    }
                    assert(first_account(self.account_deposits@, account_id@, prev.len() as int));
                    lemma_first_account(self.account_deposits@, account_id@, prev.len() as int);
                }
                self.account_deposits.len() - 1
            },
        };
        proof {
            assert(staged_accounts(self.account_deposits@)[i as int] == account_id@);
        }
        let ghost mid = self.account_deposits@;
        let mut entry = self.account_deposits.remove(i);
        if amount > u128::MAX - entry.near_balance {
            self.account_deposits.insert(i, entry);
            proof {
                assert(self.account_deposits@ =~= mid);
            }
            return Err(AmmError::BalanceOverflow);
        }
        entry.near_balance = entry.near_balance + amount;
        self.account_deposits.insert(i, entry);
        proof {
            assert(staged_accounts(self.account_deposits@) =~= staged_accounts(mid));
            assert(first_account(self.account_deposits@, account_id@, i as int));
            lemma_first_account(self.account_deposits@, account_id@, i as int);
        }
        Ok(())
    }

    /// Stages token `token_id` of collection `asset_id` for `account_id`.
    pub fn internal_deposit_nft(&mut self, account_id: &String, asset_id: &String, token_id: &String) -> (r: Result<
        (),
        AmmError,
    >)
        ensures
            r is Ok <==> old(self).staged(account_id@),
            r is Err ==> r == Err::<(), AmmError>(AmmError::AccountNotRegistered) && *final(self) == *old(self),
            r is Ok ==> match staged_ids(final(self).account_deposits@, account_id@, asset_id@) {
                Some(st) => forall|x: Seq<char>| #[trigger] st.contains(x) <==> (x == token_id@ || match staged_ids(
                    old(self).account_deposits@,
                    account_id@,
                    asset_id@,
                ) {
                    Some(o) => o.contains(x),
                    None => false,
                }),
                None => false,
            },
            forall|a: Seq<char>| #[trigger] final(self).staged(a) == old(self).staged(a),
            final(self).pools == old(self).pools,
            final(self).protocol_fee_credit == old(self).protocol_fee_credit,
            final(self).protocol_fee_multiplier == old(self).protocol_fee_multiplier,
            final(self).created_pool_ids == old(self).created_pool_ids,
    {
        let i = match find_account(&self.account_deposits, account_id) {
            Some(i) => i,
            None => return Err(AmmError::AccountNotRegistered),
        };
        proof {
            assert(staged_accounts(self.account_deposits@)[i as int] == account_id@);
            lemma_first_account(self.account_deposits@, account_id@, i as int);
        }
        let ghost mid = self.account_deposits@;
        let ghost before = staged_ids(mid, account_id@, asset_id@);
        let mut entry = self.account_deposits.remove(i);
        let slot: usize;
        match find_asset(&entry.assets, asset_id) {
            Some(j) => {
                proof {
                    lemma_first_asset(entry, asset_id@, j as int);
                }
                let ghost old_assets = entry.assets@;
                let mut asset = entry.assets.remove(j);
                insert_id(&mut asset.token_ids, token_id);
                entry.assets.insert(j, asset);
                slot = j;
                proof {
                    assert forall|k: int| 0 <= k < j implies entry.assets@[k].asset_id@ != asset_id@ by {
                        assert(entry.assets@[k] == old_assets[k]);
                    }
                    assert(first_asset(entry.assets@, asset_id@, j as int));
                }
            },
            None => {
                let mut ids: Vec<String> = Vec::new();
                ids.push(token_id.clone());
                let ghost old_assets = entry.assets@;
                entry.assets.push(AssetDeposit { asset_id: asset_id.clone(), token_ids: ids });
                slot = entry.assets.len() - 1;
                proof {
                    assert(views(ids@) =~= seq![token_id@]);
                    assert forall|k: int| 0 <= k < slot implies entry.assets@[k].asset_id@ != asset_id@ by {
                        assert(entry.assets@[k] == old_assets[k]);
                    }
                    assert(first_asset(entry.assets@, asset_id@, slot as int));
                    assert forall|x: Seq<char>| #[trigger] seq![token_id@].contains(x) <==> x == token_id@ by {
                        if x == token_id@ {
                            assert(seq![token_id@][0] == x);
                        }
                    }
                }
            },
        }
        self.account_deposits.insert(i, entry);
        proof {
            assert(staged_accounts(self.account_deposits@) =~= staged_accounts(mid));
            assert(self.account_deposits@[i as int] == entry);
            assert forall|k: int| 0 <= k < i implies self.account_deposits@[k].account_id@ != account_id@ by {
                assert(self.account_deposits@[k] == mid[k]);
            }
            assert(first_account(self.account_deposits@, account_id@, i as int));
            lemma_first_account(self.account_deposits@, account_id@, i as int);
            lemma_first_asset(entry, asset_id@, slot as int);
        }
        Ok(())
    }

    /// Takes the tokens `token_ids` of collection `asset_id` out of `account_id`'s staging
    /// area; every one of them must be staged there.
    pub fn internal_withdraw_nft(&mut self, account_id: &String, asset_id: &String, token_ids: &Vec<String>) -> (r: Result<
        (),
        AmmError,
    >)
        ensures
            !old(self).staged(account_id@) ==> r == Err::<(), AmmError>(AmmError::AccountNotRegistered),
            old(self).staged(account_id@) && staged_ids(old(self).account_deposits@, account_id@, asset_id@).is_none()
                ==> r == Err::<(), AmmError>(AmmError::NoDepositedTokens),
            staged_ids(old(self).account_deposits@, account_id@, asset_id@) is None ==> r is Err,
            staged_ids(old(self).account_deposits@, account_id@, asset_id@) is Some ==> (r is Ok <==> forall|x: Seq<char>|
                views(token_ids@).contains(x) ==> #[trigger] staged_ids(
                    old(self).account_deposits@,
                    account_id@,
                    asset_id@,
                )->Some_0.contains(x)),
            staged_ids(old(self).account_deposits@, account_id@, asset_id@) is Some && r is Err
                ==> r == Err::<(), AmmError>(AmmError::TokenNotStaged),
            r is Ok ==> staged_ids(final(self).account_deposits@, account_id@, asset_id@) is Some && forall|x: Seq<char>|
                #[trigger] staged_ids(final(self).account_deposits@, account_id@, asset_id@)->Some_0.contains(x)
                    <==> (staged_ids(old(self).account_deposits@, account_id@, asset_id@)->Some_0.contains(x)
                    && !views(token_ids@).contains(x)),
            r is Err ==> *final(self) == *old(self),
            forall|a: Seq<char>| #[trigger] final(self).staged(a) == old(self).staged(a),
            final(self).pools == old(self).pools,
            final(self).protocol_fee_credit == old(self).protocol_fee_credit,
            final(self).protocol_fee_multiplier == old(self).protocol_fee_multiplier,
            final(self).created_pool_ids == old(self).created_pool_ids,
    {
        let i = match find_account(&self.account_deposits, account_id) {
            Some(i) => i,
            None => return Err(AmmError::AccountNotRegistered),
        };
        proof {
            assert(staged_accounts(self.account_deposits@)[i as int] == account_id@);
            lemma_first_account(self.account_deposits@, account_id@, i as int);
        }
        let j = match find_asset(&self.account_deposits[i].assets, asset_id) {
            Some(j) => j,
            None => return Err(AmmError::NoDepositedTokens),
        };
        proof {
            lemma_first_asset(self.account_deposits@[i as int], asset_id@, j as int);
        }
        let ghost st = views(self.account_deposits@[i as int].assets@[j as int].token_ids@);
        proof {
            assert(staged_accounts(self.account_deposits@)[i as int] == account_id@);
            assert(staged_ids(self.account_deposits@, account_id@, asset_id@) == Some(st));
        }
        let mut k: usize = 0;
        while k < token_ids.len()
            invariant
                k <= token_ids@.len(),
                *self == *old(self),
                old(self).staged(account_id@),
                staged_ids(old(self).account_deposits@, account_id@, asset_id@) == Some(st),
                i < self.account_deposits@.len(),
                j < self.account_deposits@[i as int].assets@.len(),
                st == views(self.account_deposits@[i as int].assets@[j as int].token_ids@),
                forall|m: int| 0 <= m < k ==> #[trigger] st.contains(token_ids@[m]@),
            decreases token_ids@.len() - k,
        {
            match find_id(&self.account_deposits[i].assets[j].token_ids, &token_ids[k]) {
                Some(p) => {
                    assert(st[p as int] == token_ids@[k as int]@);
                },
                None => {
                    proof {
                        assert(views(token_ids@)[k as int] == token_ids@[k as int]@);
                        if st.contains(token_ids@[k as int]@) {
                            let q = choose|q: int| 0 <= q < st.len() && st[q] == token_ids@[k as int]@;
                            assert(st[q] == self.account_deposits@[i as int].assets@[j as int].token_ids@[q]@);
                            assert(false);
                        }
                        assert(views(token_ids@).contains(token_ids@[k as int]@));
                        assert(!st.contains(token_ids@[k as int]@));
                        assert(!(forall|x: Seq<char>| views(token_ids@).contains(x) ==> #[trigger] st.contains(x)));
                        assert(staged_ids(old(self).account_deposits@, account_id@, asset_id@)->Some_0 == st);
                        assert(!staged_ids(old(self).account_deposits@, account_id@, asset_id@)->Some_0.contains(
                            token_ids@[k as int]@));
                    }
                    return Err(AmmError::TokenNotStaged);
                },
            }
            k = k + 1;
        }
        proof {
            assert forall|x: Seq<char>| views(token_ids@).contains(x) implies #[trigger] st.contains(x) by {
                let m = choose|m: int| 0 <= m < views(token_ids@).len() && views(token_ids@)[m] == x;
                assert(st.contains(token_ids@[m]@));
            }
        }
        let ghost mid = self.account_deposits@;
        let mut entry = self.account_deposits.remove(i);
        let ghost old_assets = entry.assets@;
        let mut asset = entry.assets.remove(j);
        asset.token_ids = remove_ids(&asset.token_ids, token_ids);
        entry.assets.insert(j, asset);
        self.account_deposits.insert(i, entry);
        proof {
            assert(staged_accounts(self.account_deposits@) =~= staged_accounts(mid));
            assert(self.account_deposits@[i as int] == entry);
            assert forall|m: int| 0 <= m < i implies self.account_deposits@[m].account_id@ != account_id@ by {
                assert(self.account_deposits@[m] == mid[m]);
            }
            assert(first_account(self.account_deposits@, account_id@, i as int));
            lemma_first_account(self.account_deposits@, account_id@, i as int);
            assert forall|m: int| 0 <= m < j implies entry.assets@[m].asset_id@ != asset_id@ by {
                assert(entry.assets@[m] == old_assets[m]);
            }
            assert(first_asset(entry.assets@, asset_id@, j as int));
            lemma_first_asset(entry, asset_id@, j as int);
        }
        Ok(())
    }

    /// Charges `used_bytes` of storage growth to `account_id` after crediting `attached_deposit`;
    /// refused when the prepaid coin no longer covers the account's storage at `byte_cost`.
    pub fn assert_storage(
        &mut self,
        account_id: &String,
        used_bytes: u64,
        attached_deposit: u128,
        byte_cost: u128,
    ) -> (r: Result<(), AmmError>)
        ensures
            match entry_of(old(self).account_deposits@, account_id@) {
                None => r == Err::<(), AmmError>(AmmError::AccountNotRegistered),
                Some(e) => {
                    let usage = e.storage_usage + used_bytes;
                    let balance = e.near_balance + attached_deposit;
                    &&& r is Ok <==> (usage <= u64::MAX && fits_u128(balance) && usage * byte_cost <= balance)
                    &&& r is Ok ==> match entry_of(final(self).account_deposits@, account_id@) {
                        Some(f) => f.storage_usage == usage && f.near_balance == balance,
                        None => false,
                    }
                },
            },
            forall|a: Seq<char>| #[trigger] final(self).staged(a) == old(self).staged(a),
            final(self).pools == old(self).pools,
            final(self).protocol_fee_credit == old(self).protocol_fee_credit,
            final(self).protocol_fee_multiplier == old(self).protocol_fee_multiplier,
            final(self).created_pool_ids == old(self).created_pool_ids,
    {
        let i = match find_account(&self.account_deposits, account_id) {
            Some(i) => i,
            None => return Err(AmmError::AccountNotRegistered),
        };
        proof {
            assert(staged_accounts(self.account_deposits@)[i as int] == account_id@);
            lemma_first_account(self.account_deposits@, account_id@, i as int);
        }
        let ghost mid = self.account_deposits@;
        let mut entry = self.account_deposits.remove(i);
        let usage = entry.storage_usage.checked_add(used_bytes);
        let balance = entry.near_balance.checked_add(attached_deposit);
        let (usage, balance) = match (usage, balance) {
            (Some(u), Some(b)) => (u, b),
            _ => {
                self.account_deposits.insert(i, entry);
                proof {
                    assert(self.account_deposits@ =~= mid);
                }
                return Err(AmmError::BalanceOverflow);
            },
        };
        entry.storage_usage = usage;
        entry.near_balance = balance;
        self.account_deposits.insert(i, entry);
        proof {
            assert(staged_accounts(self.account_deposits@) =~= staged_accounts(mid));
            assert(self.account_deposits@[i as int] == entry);
            assert forall|m: int| 0 <= m < i implies self.account_deposits@[m].account_id@ != account_id@ by {
                assert(self.account_deposits@[m] == mid[m]);
            }
            assert(first_account(self.account_deposits@, account_id@, i as int));
            lemma_first_account(self.account_deposits@, account_id@, i as int);
        }
        match (usage as u128).checked_mul(byte_cost) {
            Some(cost) => if balance >= cost {
                Ok(())
            } else {
                Err(AmmError::StorageExceeded)
            },
            None => Err(AmmError::StorageExceeded),
        }
    }
}

impl Contract {
    /// Takes pool `pool_id` out of the registry for an update; `put_pool` puts it back.
    pub(crate) fn take_pool(&mut self, pool_id: u64) -> (r: Pair)
        requires
            old(self).wf(),
            pool_id < old(self).pools@.len(),
        ensures
            r == old(self).pools@[pool_id as int],
            r.wf(),
            r.pool_id == pool_id,
            final(self).pools@ == old(self).pools@.remove(pool_id as int),
            *final(self) == (Contract { pools: final(self).pools, ..*old(self) }),
            final(self).account_deposits == old(self).account_deposits,
            final(self).protocol_fee_credit == old(self).protocol_fee_credit,
            final(self).protocol_fee_multiplier == old(self).protocol_fee_multiplier,
    {
        let len = self.pools.len();
        assert(pool_id < len);
        let idx = pool_id as usize;
        assert(idx == pool_id);
        self.pools.remove(idx)
    }

    pub(crate) fn put_pool(&mut self, pool_id: u64, pool: Pair, Ghost(start): Ghost<Seq<Pair>>)
        requires
            pool_id < start.len(),
            old(self).pools@ == start.remove(pool_id as int),
            pool.wf(),
            pool.pool_id == pool_id,
            forall|i: int| 0 <= i < start.len() ==> (#[trigger] start[i]).wf() && start[i].pool_id == i,
        ensures
            final(self).wf(),
            final(self).pools@ == start.update(pool_id as int, pool),
            *final(self) == (Contract { pools: final(self).pools, ..*old(self) }),
            final(self).account_deposits == old(self).account_deposits,
            final(self).protocol_fee_credit == old(self).protocol_fee_credit,
            final(self).protocol_fee_multiplier == old(self).protocol_fee_multiplier,
    {
        let len = self.pools.len();
        assert(pool_id <= len);
        let idx = pool_id as usize;
        assert(idx == pool_id);
        self.pools.insert(idx, pool);
        assert(self.pools@ =~= start.update(pool_id as int, pool));
    }

    /// Records that `owner` created pool `pool_id`.
    fn record_created(&mut self, owner: &String, pool_id: u64)
        ensures
            *final(self) == (Contract { created_pool_ids: final(self).created_pool_ids, ..*old(self) }),
            created_by(final(self).created_pool_ids@, owner@) == created_by(old(self).created_pool_ids@, owner@).push(
                pool_id,
            ),
            forall|a: Seq<char>| a != owner@ ==> #[trigger] created_by(final(self).created_pool_ids@, a) == created_by(
                old(self).created_pool_ids@,
                a,
            ),
    {
        let ghost s0 = self.created_pool_ids@;
        let mut k: usize = 0;
        while k < self.created_pool_ids.len()
            invariant
                k <= self.created_pool_ids@.len(),
                *self == *old(self),
                s0 == old(self).created_pool_ids@,
                forall|m: int| 0 <= m < k ==> s0[m].owner@ != owner@,
            decreases self.created_pool_ids@.len() - k,
        {
            if self.created_pool_ids[k].owner == *owner {
                proof {
                    assert(first_owner(s0, owner@, k as int));
                    lemma_first_owner(s0, owner@, k as int);
                }
                let mut entry = self.created_pool_ids.remove(k);
                let ghost before_ids = entry.pool_ids@;
                entry.pool_ids.push(pool_id);
                self.created_pool_ids.insert(k, entry);
                proof {
                    let t = self.created_pool_ids@;
                    assert(t[k as int] == entry);
                    assert forall|m: int| 0 <= m < t.len() implies (#[trigger] t[m]).owner@ == owner@ || (m < s0.len()
                        && t[m] == s0[m]) by {
                        if m != k {
                            assert(t[m] == s0[m]);
                        }
                    }
                    assert forall|m: int| 0 <= m < s0.len() && s0[m].owner@ != owner@ implies #[trigger] t[m] == s0[m] by {
                        assert(m != k);
                    }
                    assert forall|m: int| 0 <= m < k implies t[m].owner@ != owner@ by {
                        assert(t[m] == s0[m]);
                    }
                    assert(first_owner(t, owner@, k as int));
                    lemma_first_owner(t, owner@, k as int);
                    assert forall|a: Seq<char>| a != owner@ implies #[trigger] created_by(t, a) == created_by(s0, a) by {
                        lemma_other_owners(s0, t, owner@, a);
                    }
                }
                return;
            }
            k = k + 1;
        }
        let mut ids: Vec<u64> = Vec::new();
        ids.push(pool_id);
        let entry = CreatedPools { owner: owner.clone(), pool_ids: ids };
        self.created_pool_ids.push(entry);
        proof {
            let t = self.created_pool_ids@;
            assert(t[s0.len() as int] == entry);
            assert(!exists|m: int| first_owner(s0, owner@, m));
            assert(entry.pool_ids@ =~= Seq::<u64>::empty().push(pool_id));
            assert forall|m: int| 0 <= m < s0.len() implies t[m].owner@ != owner@ by {
                assert(t[m] == s0[m]);
            }
            assert(first_owner(t, owner@, s0.len() as int));
            lemma_first_owner(t, owner@, s0.len() as int);
            assert forall|m: int| 0 <= m < t.len() implies (#[trigger] t[m]).owner@ == owner@ || (m < s0.len()
                && t[m] == s0[m]) by {
                if m < s0.len() {
                    assert(t[m] == s0[m]);
                }
            }
            assert forall|a: Seq<char>| a != owner@ implies #[trigger] created_by(t, a) == created_by(s0, a) by {
                lemma_other_owners(s0, t, owner@, a);
            }
        }
    }

    /// Creates a pool owned by `caller`, seeded with `initial_token_ids` (drawn from the caller's
    /// staging area) and `attached_deposit` coin; returns the new pool id.
    pub fn create_pair(
        &mut self,
        caller: &String,
        pool_type: u8,
        bonding_curve: u8,
        asset_id: String,
        spot_price: u128,
        delta: u128,
        fee: u128,
        asset_recipient: Option<String>,
        initial_token_ids: &Vec<String>,
        locked_til: u64,
        attached_deposit: u128,
    ) -> (r: Result<u64, AmmError>)
        requires
            old(self).wf(),
            old(self).pools@.len() < u64::MAX,
        ensures
            final(self).wf(),
            pool_type > 2 ==> r == Err::<u64, AmmError>(AmmError::UnknownPoolType),
            pool_type <= 2 && bonding_curve > 1 ==> r == Err::<u64, AmmError>(AmmError::UnknownCurve),
            pool_type <= 2 && bonding_curve <= 1 ==> ({
                let t = if pool_type == 0 {
                    PoolType::Token
                } else if pool_type == 1 {
                    PoolType::NFT
                } else {
                    PoolType::Trade
                };
                let c = if bonding_curve == 0 { BondingCurve::LinearCurve } else { BondingCurve::ExponentialCurve };
                let staged = staged_ids(old(self).account_deposits@, caller@, asset_id@);
                let ok = Pair::new_error(crate::curve::Curve { curve_type: c }, t, spot_price, delta, fee, asset_recipient)
                    is None && (initial_token_ids@.len() == 0 || (staged is Some && (forall|x: Seq<char>|
                    views(initial_token_ids@).contains(x) ==> #[trigger] staged->Some_0.contains(x))))
                    && !(t == PoolType::Trade && initial_token_ids@.len() * spot_price > attached_deposit);
                &&& (Pair::new_error(crate::curve::Curve { curve_type: c }, t, spot_price, delta, fee, asset_recipient)
                    matches Some(e) ==> r == Err::<u64, AmmError>(e))
                &&& r is Ok <==> ok
            }),
            r is Ok ==> created_by(final(self).created_pool_ids@, caller@) == created_by(
                old(self).created_pool_ids@,
                caller@,
            ).push(r->Ok_0),
            r is Ok ==> forall|a: Seq<char>| a != caller@ ==> #[trigger] created_by(final(self).created_pool_ids@, a)
                == created_by(old(self).created_pool_ids@, a),
            r is Ok && asset_recipient is Some ==> final(self).staged(asset_recipient->Some_0@),
            r is Ok ==> {
                let p = final(self).pools@[old(self).pools@.len() as int];
                &&& r == Ok::<u64, AmmError>(old(self).pools@.len() as u64)
                &&& final(self).pools@.len() == old(self).pools@.len() + 1
                &&& final(self).pools@.subrange(0, old(self).pools@.len() as int) == old(self).pools@
                &&& p.owner@ == caller@
                &&& p.nft_token@ == asset_id@
                &&& p.spot_price == spot_price
                &&& p.delta == delta
                &&& p.fee == fee
                &&& p.released_time == locked_til
                &&& p.near_balance == attached_deposit
                &&& p.asset_recipient == asset_recipient
                &&& (pool_type == 0 ==> p.pool_type == PoolType::Token)
                &&& (pool_type == 1 ==> p.pool_type == PoolType::NFT)
                &&& (pool_type == 2 ==> p.pool_type == PoolType::Trade)
                &&& (bonding_curve == 0 ==> p.curve.curve_type == BondingCurve::LinearCurve)
                &&& (bonding_curve == 1 ==> p.curve.curve_type == BondingCurve::ExponentialCurve)
                &&& forall|x: Seq<char>| #[trigger] p.held().contains(x) <==> views(initial_token_ids@).contains(x)
                &&& p.lp_supply == p.lp_of(caller@)
            },
            final(self).protocol_fee_credit == old(self).protocol_fee_credit,
    {
        let pool_type = match PoolType::from_u8(pool_type) {
            Ok(t) => t,
            Err(e) => return Err(e),
        };
        let curve = match BondingCurve::from_u8(bonding_curve) {
            Ok(c) => c,
            Err(e) => return Err(e),
        };
        let pool_id = self.pools.len() as u64;
        let mut pair = match Pair::new(
            curve,
            pool_type,
            asset_id.clone(),
            spot_price,
            delta,
            fee,
            caller.clone(),
            asset_recipient.clone(),
            0,
            locked_til,
            pool_id,
        ) {
            Ok(p) => p,
            Err(e) => return Err(e),
        };
        if initial_token_ids.len() > 0 {
            match self.internal_withdraw_nft(caller, &asset_id, initial_token_ids) {
                Ok(()) => {},
                Err(e) => return Err(e),
            }
        }
        if let Some(recipient) = &asset_recipient {
            match find_account(&self.account_deposits, recipient) {
                Some(i) => {
                    proof {
                        assert(staged_accounts(self.account_deposits@)[i as int] == recipient@);
                    }
                },
                None => {
                    match self.internal_register_account(recipient, 0) {
                        Ok(()) => {},
                        Err(e) => return Err(e),
                    }
                },
            }
        }
        pair.internal_register_account_lp(caller);
        match pair.deposit_and_mint_lp(caller, caller, initial_token_ids, attached_deposit) {
            Ok(()) => {},
            Err(e) => return Err(e),
        }
        proof {
            assert forall|x: Seq<char>| #[trigger] pair.held().contains(x) <==> views(initial_token_ids@).contains(x) by {
                assert(!Seq::<Seq<char>>::empty().contains(x));
            }
        }
        let ghost before = self.pools@;
        self.pools.push(pair);
        assert(self.pools@.subrange(0, before.len() as int) =~= before);
        self.record_created(caller, pool_id);
        Ok(pool_id)
    }

    /// `caller` adds the staged NFTs `token_ids` and `attached_deposit` coin to pool `pool_id`.
    pub fn add_liquidity(&mut self, caller: &String, pool_id: u64, token_ids: &Vec<String>, attached_deposit: u128) -> (r: Result<
        (),
        AmmError,
    >)
        requires
            old(self).wf(),
        ensures
            final(self).wf(),
            pool_id >= old(self).pools@.len() ==> r == Err::<(), AmmError>(AmmError::InvalidPoolId),
            pool_id < old(self).pools@.len() ==> {
                let p = old(self).pools@[pool_id as int];
                let staged = staged_ids(old(self).account_deposits@, caller@, p.nft_token@);
                &&& r is Ok <==> (staged is Some
                    && (forall|x: Seq<char>| views(token_ids@).contains(x) ==> #[trigger] staged->Some_0.contains(x))
                    && p.deposit_ok(token_ids@, attached_deposit))
                &&& r is Ok ==> {
                    let q = final(self).pools@[pool_id as int];
                    &&& q.near_balance == p.near_balance + attached_deposit
                    &&& q.held() == add_ids(p.held(), views(token_ids@))
                    &&& q.lp_supply == p.lp_supply + p.deposit_minted(token_ids@, attached_deposit)
                    &&& q.lp_of(caller@) == p.lp_of(caller@) + p.deposit_minted(token_ids@, attached_deposit)
                }
            },
            forall|k: int| 0 <= k < old(self).pools@.len() && k != pool_id ==> #[trigger] final(self).pools@[k]
                == old(self).pools@[k],
            final(self).pools@.len() == old(self).pools@.len(),
            final(self).protocol_fee_credit == old(self).protocol_fee_credit,
    {
        if pool_id >= self.pools.len() as u64 {
            return Err(AmmError::InvalidPoolId);
        }
        let asset_id = self.pools[pool_id as usize].nft_token.clone();
        match self.internal_withdraw_nft(caller, &asset_id, token_ids) {
            Ok(()) => {},
            Err(e) => return Err(e),
        }
        let ghost start = self.pools@;
        let mut pool = self.take_pool(pool_id);
        let res = pool.deposit_and_mint_lp(caller, caller, token_ids, attached_deposit);
        self.put_pool(pool_id, pool, Ghost(start));
        res
    }

    /// `caller` burns `lp` shares of pool `pool_id`; returns the coin and NFTs redeemed. The
    /// reported protocol fee is credited to the protocol. Exactly one unit of coin must be
    /// attached, as a guard against accidental calls.
    pub fn remove_liquidity(&mut self, caller: &String, pool_id: u64, lp: u128, attached_deposit: u128) -> (r: Result<
        (u128, Vec<String>),
        AmmError,
    >)
        requires
            old(self).wf(),
        ensures
            final(self).wf(),
            attached_deposit != 1 ==> r == Err::<(u128, Vec<String>), AmmError>(AmmError::AttachmentRequired)
                && *final(self) == *old(self),
            attached_deposit == 1 && pool_id >= old(self).pools@.len()
                ==> r == Err::<(u128, Vec<String>), AmmError>(AmmError::InvalidPoolId),
            attached_deposit == 1 && pool_id < old(self).pools@.len() ==> {
                let p = old(self).pools@[pool_id as int];
                let pfm = old(self).protocol_fee_multiplier;
                &&& lp == 0 ==> r is Ok && r->Ok_0.0 == 0 && r->Ok_0.1@.len() == 0
                    && final(self).pools@[pool_id as int] == p
                &&& lp > 0 ==> (r is Ok <==> (lp <= p.lp_of(caller@) && match burn_coin(p, lp as int, pfm) {
                    Some(coin) => coin <= p.near_balance && fits_u128(part_of(coin, pfm as int))
                        && fits_u128(old(self).protocol_fee_credit + part_of(coin, pfm as int)),
                    None => false,
                }))
                &&& r is Ok && lp > 0 ==> {
                    let coin = r->Ok_0.0 as int;
                    let k = burn_count(p.held().len() as int, lp as int, p.lp_supply as int);
                    let q = final(self).pools@[pool_id as int];
                    &&& Some(coin) == burn_coin(p, lp as int, pfm)
                    &&& views(r->Ok_0.1@) == p.held().subrange(0, k)
                    &&& q.held() == p.held().subrange(k, p.held().len() as int)
                    &&& q.near_balance == p.near_balance - coin
                    &&& q.lp_supply == p.lp_supply - lp
                    &&& forall|a: Seq<char>| #[trigger] q.lp_of(a)
                        == if a == caller@ { p.lp_of(a) - lp } else { p.lp_of(a) }
                    &&& q.same_setup(&p)
                    &&& q.spot_price == p.spot_price
                    &&& q.delta == p.delta
                    &&& final(self).protocol_fee_credit == old(self).protocol_fee_credit + part_of(coin, pfm as int)
                }
            },
            forall|k: int| 0 <= k < old(self).pools@.len() && k != pool_id ==> #[trigger] final(self).pools@[k]
                == old(self).pools@[k],
            final(self).pools@.len() == old(self).pools@.len(),
    {
        if attached_deposit != 1 {
            return Err(AmmError::AttachmentRequired);
        }
        if pool_id >= self.pools.len() as u64 {
            return Err(AmmError::InvalidPoolId);
        }
        let pfm = self.protocol_fee_multiplier;
        let ghost start = self.pools@;
        let mut pool = self.take_pool(pool_id);
        let res = pool.burn_lp(caller, lp, pfm);
        self.put_pool(pool_id, pool, Ghost(start));
        match res {
            Ok((protocol_fee, coin, token_ids)) => {
                if protocol_fee > u128::MAX - self.protocol_fee_credit {
                    return Err(AmmError::BalanceOverflow);
                }
                self.protocol_fee_credit = self.protocol_fee_credit + protocol_fee;
                Ok((coin, token_ids))
            },
            Err(e) => Err(e),
        }
    }

    /// Owner takes up to `near_amount` coin out of a Token or NFT pool; returns what was taken.
    pub fn withdraw_near(&mut self, caller: &String, pool_id: u64, near_amount: u128, now: u64) -> (r: Result<u128, AmmError>)
        requires
            old(self).wf(),
        ensures
            final(self).wf(),
            pool_id >= old(self).pools@.len() ==> r == Err::<u128, AmmError>(AmmError::InvalidPoolId),
            pool_id < old(self).pools@.len() ==> match old(self).pools@[pool_id as int].withdraw_error(caller@, now) {
                Some(e) => r == Err::<u128, AmmError>(e),
                None => {
                    let p = old(self).pools@[pool_id as int];
                    let q = final(self).pools@[pool_id as int];
                    let taken = if p.near_balance > near_amount { near_amount } else { p.near_balance };
                    &&& r == Ok::<u128, AmmError>(taken)
                    &&& q.near_balance == p.near_balance - taken
                    &&& q.same_shares(&p)
                    &&& q.token_ids_in_pools@ == p.token_ids_in_pools@
                    &&& q.spot_price == p.spot_price
                    &&& q.delta == p.delta
                },
            },
            r is Err ==> final(self).pools@ == old(self).pools@,
            forall|k: int| 0 <= k < old(self).pools@.len() && k != pool_id ==> #[trigger] final(self).pools@[k]
                == old(self).pools@[k],
            final(self).pools@.len() == old(self).pools@.len(),
            final(self).protocol_fee_credit == old(self).protocol_fee_credit,
    {
        if pool_id >= self.pools.len() as u64 {
            return Err(AmmError::InvalidPoolId);
        }
        let ghost start = self.pools@;
        let mut pool = self.take_pool(pool_id);
        let res = pool.withdraw_near(caller, near_amount, now);
        self.put_pool(pool_id, pool, Ghost(start));
        proof {
            if res is Err {
                assert(self.pools@ =~= old(self).pools@);
            }
        }
        res
    }

    /// Owner takes the NFTs `token_ids` out of a Token or NFT pool.
    pub fn withdraw_nfts(&mut self, caller: &String, pool_id: u64, token_ids: &Vec<String>, now: u64) -> (r: Result<
        (),
        AmmError,
    >)
        requires
            old(self).wf(),
        ensures
            final(self).wf(),
            pool_id >= old(self).pools@.len() ==> r == Err::<(), AmmError>(AmmError::InvalidPoolId),
            pool_id < old(self).pools@.len() ==> match old(self).pools@[pool_id as int].withdraw_error(caller@, now) {
                Some(e) => r == Err::<(), AmmError>(e),
                None => {
                    &&& r is Ok <==> (views(token_ids@).no_duplicates() && forall|x: Seq<char>|
                        views(token_ids@).contains(x) ==> #[trigger] old(self).pools@[pool_id as int].held().contains(x))
                    &&& r is Ok ==> forall|x: Seq<char>| #[trigger] final(self).pools@[pool_id as int].held().contains(x)
                        <==> (old(self).pools@[pool_id as int].held().contains(x) && !views(token_ids@).contains(x))
                },
            },
            forall|k: int| 0 <= k < old(self).pools@.len() && k != pool_id ==> #[trigger] final(self).pools@[k]
                == old(self).pools@[k],
            final(self).pools@.len() == old(self).pools@.len(),
            final(self).protocol_fee_credit == old(self).protocol_fee_credit,
    {
        if pool_id >= self.pools.len() as u64 {
            return Err(AmmError::InvalidPoolId);
        }
        let ghost start = self.pools@;
        let mut pool = self.take_pool(pool_id);
        let res = pool.withdraw_nfts(caller, token_ids, now);
        self.put_pool(pool_id, pool, Ghost(start));
        res
    }

    /// `caller` takes staged NFTs back; at least one unit of coin must be attached per NFT.
    pub fn withdraw_nfts_from_deposit(
        &mut self,
        caller: &String,
        asset_id: &String,
        token_ids: &Vec<String>,
        attached_deposit: u128,
    ) -> (r: Result<(), AmmError>)
        requires
            old(self).wf(),
        ensures
            final(self).wf(),
            attached_deposit < token_ids@.len() ==> r == Err::<(), AmmError>(AmmError::AttachmentRequired),
            attached_deposit >= token_ids@.len() ==> (r is Ok <==> (staged_ids(old(self).account_deposits@, caller@, asset_id@)
                is Some && forall|x: Seq<char>| views(token_ids@).contains(x) ==> #[trigger] staged_ids(
                old(self).account_deposits@,
                caller@,
                asset_id@,
            )->Some_0.contains(x))),
            r is Ok ==> staged_ids(final(self).account_deposits@, caller@, asset_id@) is Some && forall|x: Seq<char>|
                #[trigger] staged_ids(final(self).account_deposits@, caller@, asset_id@)->Some_0.contains(x)
                    <==> (staged_ids(old(self).account_deposits@, caller@, asset_id@)->Some_0.contains(x)
                    && !views(token_ids@).contains(x)),
            final(self).pools == old(self).pools,
            final(self).protocol_fee_credit == old(self).protocol_fee_credit,
    {
        if attached_deposit < token_ids.len() as u128 {
            return Err(AmmError::AttachmentRequired);
        }
        self.internal_withdraw_nft(caller, asset_id, token_ids)
    }

    /// Registers `account_id` for shares of pool `pool_id`.
    pub fn lp_register(&mut self, pool_id: u64, account_id: &String) -> (r: Result<(), AmmError>)
        requires
            old(self).wf(),
        ensures
            final(self).wf(),
            r is Ok <==> pool_id < old(self).pools@.len(),
            r is Err ==> r == Err::<(), AmmError>(AmmError::InvalidPoolId),
            r is Ok ==> {
                let p = old(self).pools@[pool_id as int];
                let q = final(self).pools@[pool_id as int];
                &&& q.registered(account_id@)
                &&& forall|a: Seq<char>| #[trigger] q.lp_of(a) == p.lp_of(a)
                &&& forall|a: Seq<char>| p.registered(a) ==> #[trigger] q.registered(a)
                &&& p.registered(account_id@) ==> q == p
                &&& q.lp_supply == p.lp_supply
                &&& q.same_setup(&p)
                &&& q.held() == p.held()
                &&& q.near_balance == p.near_balance
                &&& q.spot_price == p.spot_price
                &&& q.delta == p.delta
            },
            forall|k: int| 0 <= k < old(self).pools@.len() && k != pool_id ==> #[trigger] final(self).pools@[k]
                == old(self).pools@[k],
            final(self).pools@.len() == old(self).pools@.len(),
            final(self).protocol_fee_credit == old(self).protocol_fee_credit,
    {
        if pool_id >= self.pools.len() as u64 {
            return Err(AmmError::InvalidPoolId);
        }
        let ghost start = self.pools@;
        let mut pool = self.take_pool(pool_id);
        pool.internal_register_account_lp(account_id);
        self.put_pool(pool_id, pool, Ghost(start));
        Ok(())
    }

    /// `caller` moves `amount` shares of pool `pool_id` to `receiver_id`.
    pub fn lp_transfer(&mut self, caller: &String, pool_id: u64, receiver_id: &String, amount: u128) -> (r: Result<
        (),
        AmmError,
    >)
        requires
            old(self).wf(),
        ensures
            final(self).wf(),
            pool_id >= old(self).pools@.len() ==> r == Err::<(), AmmError>(AmmError::InvalidPoolId),
            pool_id < old(self).pools@.len() ==> {
                let p = old(self).pools@[pool_id as int];
                &&& r is Ok <==> (caller@ != receiver_id@ && p.registered(caller@) && p.registered(receiver_id@)
                    && p.lp_of(caller@) >= amount)
                &&& caller@ == receiver_id@ ==> r == Err::<(), AmmError>(AmmError::SelfTransfer)
                &&& r is Err ==> final(self).pools@[pool_id as int] == p
                &&& final(self).pools@[pool_id as int].lp_supply == p.lp_supply
            },
            r is Ok ==> forall|a: Seq<char>| #[trigger] final(self).pools@[pool_id as int].lp_of(a) == if a == caller@ {
                old(self).pools@[pool_id as int].lp_of(a) - amount
            } else if a == receiver_id@ {
                old(self).pools@[pool_id as int].lp_of(a) + amount
            } else {
                old(self).pools@[pool_id as int].lp_of(a)
            },
            forall|k: int| 0 <= k < old(self).pools@.len() && k != pool_id ==> #[trigger] final(self).pools@[k]
                == old(self).pools@[k],
            final(self).pools@.len() == old(self).pools@.len(),
            final(self).protocol_fee_credit == old(self).protocol_fee_credit,
    {
        if pool_id >= self.pools.len() as u64 {
            return Err(AmmError::InvalidPoolId);
        }
        let ghost start = self.pools@;
        let mut pool = self.take_pool(pool_id);
        let res = pool.lp_transfer(caller, receiver_id, amount);
        self.put_pool(pool_id, pool, Ghost(start));
        res
    }

    /// Shares of `account_id` in pool `pool_id`.
    pub fn lp_balance_of(&self, pool_id: u64, account_id: &String) -> (r: Result<u128, AmmError>)
        requires
            self.wf(),
        ensures
            pool_id >= self.pools@.len() ==> r == Err::<u128, AmmError>(AmmError::InvalidPoolId),
            pool_id < self.pools@.len() ==> r is Ok && r->Ok_0 == self.pools@[pool_id as int].lp_of(account_id@),
    {
        if pool_id >= self.pools.len() as u64 {
            return Err(AmmError::InvalidPoolId);
        }
        let pool = &self.pools[pool_id as usize];
        match crate::lp::find_lp(&pool.lp_balances, account_id) {
            Some(i) => {
                proof {
                    crate::lp::lemma_lp_at(pool.lp_balances@, i as int);
                }
                Ok(pool.lp_balances[i].balance)
            },
            None => {
                proof {
                    crate::lp::lemma_lp_absent(pool.lp_balances@, account_id@);
                }
                Ok(0)
            },
        }
    }

    /// Total shares of pool `pool_id`.
    pub fn lp_total_supply(&self, pool_id: u64) -> (r: Result<u128, AmmError>)
        ensures
            pool_id >= self.pools@.len() ==> r == Err::<u128, AmmError>(AmmError::InvalidPoolId),
            pool_id < self.pools@.len() ==> r == Ok::<u128, AmmError>(self.pools@[pool_id as int].lp_supply),
    {
        if pool_id >= self.pools.len() as u64 {
            return Err(AmmError::InvalidPoolId);
        }
        Ok(self.pools[pool_id as usize].lp_supply)
    }

    /// Number of pools.
    pub fn get_pool_count(&self) -> (r: u64)
        requires
            self.pools@.len() <= u64::MAX,
        ensures
            r == self.pools@.len(),
    {
        self.pools.len() as u64
    }

    /// Collection traded by pool `pool_id`.
    pub fn get_nft_asset_id(&self, pool_id: u64) -> (r: Result<String, AmmError>)
        ensures
            pool_id >= self.pools@.len() ==> r == Err::<String, AmmError>(AmmError::InvalidPoolId),
            pool_id < self.pools@.len() ==> r is Ok && r->Ok_0@ == self.pools@[pool_id as int].nft_token@,
    {
        if pool_id >= self.pools.len() as u64 {
            return Err(AmmError::InvalidPoolId);
        }
        Ok(self.pools[pool_id as usize].nft_token.clone())
    }

    /// Buy quote for `num_items` NFTs of pool `pool_id` at the current protocol fee.
    pub fn get_buy_info(&self, pool_id: u64, num_items: u64) -> (r: Result<BuyInfo, AmmError>)
        requires
            self.wf(),
        ensures
            pool_id >= self.pools@.len() ==> r == Err::<BuyInfo, AmmError>(AmmError::InvalidPoolId),
            pool_id < self.pools@.len() ==> r == Ok::<BuyInfo, AmmError>(
                self.pools@[pool_id as int].buy_quote(num_items, self.protocol_fee_multiplier),
            ),
    {
        if pool_id >= self.pools.len() as u64 {
            return Err(AmmError::InvalidPoolId);
        }
        let pool = &self.pools[pool_id as usize];
        Ok(pool.curve.get_buy_info(pool.spot_price, pool.delta, num_items, pool.fee, self.protocol_fee_multiplier))
    }

    /// Sell quote for `num_items` NFTs into pool `pool_id` at the current protocol fee.
    pub fn get_sell_info(&self, pool_id: u64, num_items: u64) -> (r: Result<SellInfo, AmmError>)
        requires
            self.wf(),
        ensures
            pool_id >= self.pools@.len() ==> r == Err::<SellInfo, AmmError>(AmmError::InvalidPoolId),
            pool_id < self.pools@.len() && self.pools@[pool_id as int].fee + self.protocol_fee_multiplier > WAD
                ==> r == Err::<SellInfo, AmmError>(AmmError::FeeExceedsMax),
            pool_id < self.pools@.len() && self.pools@[pool_id as int].fee + self.protocol_fee_multiplier <= WAD
                ==> r == Ok::<SellInfo, AmmError>(
                self.pools@[pool_id as int].sell_quote(num_items, self.protocol_fee_multiplier),
            ),
    {
        if pool_id >= self.pools.len() as u64 {
            return Err(AmmError::InvalidPoolId);
        }
        let pool = &self.pools[pool_id as usize];
        if self.protocol_fee_multiplier > WAD - pool.fee {
            return Err(AmmError::FeeExceedsMax);
        }
        Ok(pool.curve.get_sell_info(pool.spot_price, pool.delta, num_items, pool.fee, self.protocol_fee_multiplier))
    }
}

impl Contract {
    /// Protocol fee multiplier in WAD units.
    pub fn get_protocol_fee_multiplier(&self) -> (r: u128)
        ensures
            r == self.protocol_fee_multiplier,
    {
        self.protocol_fee_multiplier
    }

    /// Token ids held by pool `pool_id`, in selection order.
    pub fn get_all_held_ids(&self, pool_id: u64) -> (r: Result<Vec<String>, AmmError>)
        ensures
            pool_id >= self.pools@.len() ==> r == Err::<Vec<String>, AmmError>(AmmError::InvalidPoolId),
            pool_id < self.pools@.len() ==> r is Ok && views(r->Ok_0@) == self.pools@[pool_id as int].held(),
    {
        if pool_id >= self.pools.len() as u64 {
            return Err(AmmError::InvalidPoolId);
        }
        let pool = &self.pools[pool_id as usize];
        let mut out: Vec<String> = Vec::new();
        let mut k: usize = 0;
        while k < pool.token_ids_in_pools.len()
            invariant
                k <= pool.held().len(),
                pool.held().len() == pool.token_ids_in_pools@.len(),
                views(out@) == pool.held().subrange(0, k as int),
            decreases pool.token_ids_in_pools@.len() - k,
        {
            let ghost prev = out@;
            out.push(pool.token_ids_in_pools[k].token_id.clone());
            assert(views(out@) =~= views(prev).push(pool.held()[k as int]));
            assert(views(out@) =~= pool.held().subrange(0, k + 1));
            k = k + 1;
        }
        assert(pool.held().subrange(0, pool.held().len() as int) =~= pool.held());
        Ok(out)
    }

    /// Minimum (and maximum) prepaid coin a staging account needs at `byte_cost` per byte.
    pub fn storage_balance_bounds_for_account(&self, byte_cost: u128) -> (r: Result<(u128, u128), AmmError>)
        ensures
            ({
                let need = (self.storage_per_account_creation + self.storage_per_nft_deposit) * byte_cost;
                &&& fits_u128(need) ==> r == Ok::<(u128, u128), AmmError>((need as u128, need as u128))
                &&& !fits_u128(need) ==> r == Err::<(u128, u128), AmmError>(AmmError::BalanceOverflow)
            }),
    {
        let bytes = self.storage_per_account_creation as u128 + self.storage_per_nft_deposit as u128;
        match bytes.checked_mul(byte_cost) {
            Some(need) => Ok((need, need)),
            None => Err(AmmError::BalanceOverflow),
        }
    }

    /// Prepaid coin of `account_id` beyond what its storage uses at `byte_cost`; zero when it
    /// has no staging entry or its storage is not covered.
    pub fn storage_available(&self, account_id: &String, byte_cost: u128) -> (r: u128)
        ensures
            r == match entry_of(self.account_deposits@, account_id@) {
                Some(e) => if e.storage_usage * byte_cost <= e.near_balance {
                    e.near_balance - e.storage_usage * byte_cost
                } else {
                    0
                },
                None => 0,
            },
    {
        match find_account(&self.account_deposits, account_id) {
            Some(i) => {
                proof {
                    lemma_first_account(self.account_deposits@, account_id@, i as int);
                }
                let entry = &self.account_deposits[i];
                match (entry.storage_usage as u128).checked_mul(byte_cost) {
                    Some(usage) => if entry.near_balance >= usage {
                        entry.near_balance - usage
                    } else {
                        0
                    },
                    None => 0,
                }
            },
            None => 0,
        }
    }

    /// Settles a share transfer whose receiver was notified: `unused_reported` is what the
    /// receiver said it did not use (`None` when the notification failed, meaning all of it).
    /// Up to that much, within the receiver's balance, goes back to the sender; returns the
    /// unused amount.
    pub fn lp_resolve_transfer(
        &mut self,
        pool_id: u64,
        sender_id: &String,
        receiver_id: &String,
        amount: u128,
        unused_reported: Option<u128>,
    ) -> (r: Result<u128, AmmError>)
        requires
            old(self).wf(),
        ensures
            final(self).wf(),
            final(self).pools@.len() == old(self).pools@.len(),
            final(self).protocol_fee_credit == old(self).protocol_fee_credit,
            pool_id >= old(self).pools@.len() ==> r == Err::<u128, AmmError>(AmmError::InvalidPoolId),
            pool_id < old(self).pools@.len() ==> {
                let p = old(self).pools@[pool_id as int];
                let unused = match unused_reported {
                    Some(u) => if u < amount { u } else { amount },
                    None => amount,
                };
                let held = p.lp_of(receiver_id@);
                let refund = if held < unused { held } else { unused as int };
                &&& r is Ok <==> (refund == 0 || (sender_id@ != receiver_id@ && p.registered(sender_id@)))
                &&& r is Ok ==> r->Ok_0 == unused
                &&& r is Ok && refund > 0 ==> forall|a: Seq<char>| #[trigger] final(self).pools@[pool_id as int].lp_of(a)
                    == if a == receiver_id@ {
                    p.lp_of(a) - refund
                } else if a == sender_id@ {
                    p.lp_of(a) + refund
                } else {
                    p.lp_of(a)
                }
                &&& refund == 0 ==> final(self).pools == old(self).pools
            },
    {
        if pool_id >= self.pools.len() as u64 {
            return Err(AmmError::InvalidPoolId);
        }
        let unused = match unused_reported {
            Some(u) => if u < amount { u } else { amount },
            None => amount,
        };
        proof {
            crate::lp::lemma_lp_balance_nonneg(self.pools@[pool_id as int].lp_balances@, receiver_id@);
        }
        if unused > 0 {
            let receiver_balance = match self.lp_balance_of(pool_id, receiver_id) {
                Ok(b) => b,
                Err(e) => return Err(e),
            };
            if receiver_balance > 0 {
                proof {
                    if !self.pools@[pool_id as int].registered(receiver_id@) {
                        crate::lp::lemma_lp_absent(self.pools@[pool_id as int].lp_balances@, receiver_id@);
                    }
                }
                let refund = if receiver_balance < unused { receiver_balance } else { unused };
                let ghost p0 = self.pools@[pool_id as int];
                assert(p0 == old(self).pools@[pool_id as int]);
                match self.lp_transfer(receiver_id, pool_id, sender_id, refund) {
                    Ok(()) => {
                        assert(receiver_id@ != sender_id@ && p0.registered(sender_id@));
                    },
                    Err(e) => return Err(e),
                }
            }
        }
        Ok(unused)
    }

    /// Settles an NFT transfer to `account_id`: a failed transfer puts the token back into
    /// the account's staging area.
    pub fn nft_transfer_resolve(
        &mut self,
        account_id: &String,
        asset_id: &String,
        token_id: &String,
        transferred: bool,
    ) -> (r: Result<(), AmmError>)
        requires
            old(self).wf(),
        ensures
            final(self).wf(),
            transferred ==> r is Ok && *final(self) == *old(self),
            !transferred ==> (r is Ok <==> old(self).staged(account_id@)),
            !transferred && r is Ok ==> staged_ids(final(self).account_deposits@, account_id@, asset_id@) is Some
                && staged_ids(final(self).account_deposits@, account_id@, asset_id@)->Some_0.contains(token_id@),
            final(self).pools == old(self).pools,
            final(self).protocol_fee_credit == old(self).protocol_fee_credit,
    {
        if transferred {
            return Ok(());
        }
        self.internal_deposit_nft(account_id, asset_id, token_id)
    }
}

} // verus!
