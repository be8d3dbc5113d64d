//! Multi-hop swap router: applies a list of actions across pools under one coin budget.
use vstd::prelude::*;
use crate::contract::Contract;
use crate::error::AmmError;
use crate::fixed::fits_u128;
use crate::pair::{paid_fee, paid_out};
use crate::seqs::views;
use crate::staging::{insert_id, remove_ids, staged_ids};

verus! {

/// Direction of one hop.
#[derive(Clone, Copy, Debug, PartialEq, Eq, Structural)]
pub enum SwapType {
    NFTToNear,
    NearToNFT,
}

impl SwapType {
    /// Decodes the wire tag: 0 sells NFTs for coin, 1 buys NFTs with coin.
    pub fn from_u8(val: u8) -> (r: Result<SwapType, AmmError>)
        ensures
            val == 0 ==> r == Ok::<SwapType, AmmError>(SwapType::NFTToNear),
            val == 1 ==> r == Ok::<SwapType, AmmError>(SwapType::NearToNFT),
            val > 1 ==> r == Err::<SwapType, AmmError>(AmmError::UnknownSwapType),
    {
        if val == 0 {
            Ok(SwapType::NFTToNear)
        } else if val == 1 {
            Ok(SwapType::NearToNFT)
        } else {
            Err(AmmError::UnknownSwapType)
        }
    }
}

/// One hop of a swap.
#[derive(Clone, Debug)]
pub struct Action {
    pub pool_id: u64,
    pub swap_type: u8,
    pub min_output_near: Option<u128>,
    pub input_token_ids: Vec<String>,
    pub output_token_ids: Vec<String>,
    pub num_out_nfts: Option<u64>,
}

/// NFTs of one collection bought earlier in a swap and not yet handed to the caller.
#[derive(Debug)]
pub struct InFlight {
    pub asset_id: String,
    pub token_ids: Vec<String>,
}

/// What a completed swap leaves for the host to carry out.
#[derive(Debug)]
pub struct SwapOutcome {
    /// Coin to refund to the caller.
    pub refund: u128,
    /// NFTs to transfer to the caller, per collection.
    pub nft_transfers: Vec<InFlight>,
    /// Protocol fee of each hop, in order.
    pub hop_fees: Vec<u128>,
    /// Coin each hop charged, in order.
    pub hop_spent: Vec<u128>,
    /// Coin each hop paid out, in order.
    pub hop_received: Vec<u128>,
}

/// Sum of a list of amounts.
pub open spec fn total(s: Seq<u128>) -> int
    decreases s.len(),
{
    if s.len() == 0 {
        0
    } else {
        total(s.drop_last()) + s.last()
    }
}

/// `i` is the first in-flight entry of collection `a`.
pub open spec fn first_flight(s: Seq<InFlight>, a: Seq<char>, i: int) -> bool {
    0 <= i < s.len() && s[i].asset_id@ == a && forall|m: int| 0 <= m < i ==> s[m].asset_id@ != a
}

/// Token ids of collection `a` in flight, if the swap holds an entry for it.
pub open spec fn in_flight(s: Seq<InFlight>, a: Seq<char>) -> Option<Seq<Seq<char>>> {
    if exists|i: int| first_flight(s, a, i) {
        Some(views(s[choose|i: int| first_flight(s, a, i)].token_ids@))
    } else {
        None
    }
}

/// Whether `x` is in flight for collection `a`.
pub open spec fn flying(s: Seq<InFlight>, a: Seq<char>, x: Seq<char>) -> bool {
    match in_flight(s, a) {
        Some(f) => f.contains(x),
        None => false,
    }
}

proof fn lemma_first_flight(s: Seq<InFlight>, a: Seq<char>, i: int)
    requires
        first_flight(s, a, i),
    ensures
        in_flight(s, a) == Some(views(s[i].token_ids@)),
{
    let j = choose|j: int| first_flight(s, a, j);
    if j < i {
        assert(s[j].asset_id@ != a);
    } else if j > i {
        assert(s[i].asset_id@ != a);
    }
}

/// Replacing or appending the entry of one collection leaves the others in flight as they were.
proof fn lemma_flight_frame(s: Seq<InFlight>, t: Seq<InFlight>, b: Seq<char>, a: Seq<char>)
    requires
        a != b,
        s.len() <= t.len() <= s.len() + 1,
        forall|m: int| 0 <= m < t.len() ==> (#[trigger] t[m]).asset_id@ == b || (m < s.len() && t[m] == s[m]),
        forall|m: int| 0 <= m < s.len() && s[m].asset_id@ != b ==> #[trigger] t[m] == s[m],
    ensures
        in_flight(t, a) == in_flight(s, a),
{
    if exists|k: int| first_flight(s, a, k) {
        let k = choose|k: int| first_flight(s, a, k);
        assert(t[k] == s[k]);
        assert forall|m: int| 0 <= m < k implies t[m].asset_id@ != a by {
            if t[m].asset_id@ != b {
                assert(t[m] == s[m]);
            }
        }
        assert(first_flight(t, a, k));
        lemma_first_flight(s, a, k);
        lemma_first_flight(t, a, k);
    } else {
        if exists|k: int| first_flight(t, a, k) {
            let k = choose|k: int| first_flight(t, a, k);
            assert(k < s.len() && t[k] == s[k]);
            assert forall|m: int| 0 <= m < k implies s[m].asset_id@ != a by {
                if s[m].asset_id@ != b {
                    assert(t[m] == s[m]);
                }
            }
            assert(first_flight(s, a, k));
        }
    }
}

/// Position of collection `asset` among the in-flight entries.
fn find_in_flight(s: &Vec<InFlight>, asset: &String) -> (r: Option<usize>)
    ensures
        match r {
            Some(i) => first_flight(s@, asset@, i as int),
            None => in_flight(s@, asset@).is_none() && forall|i: int| 0 <= i < s@.len() ==> s@[i].asset_id@ != asset@,
        },
{
    let mut i: usize = 0;
    while i < s.len()
        invariant
            i <= s@.len(),
            forall|k: int| 0 <= k < i ==> s@[k].asset_id@ != asset@,
        decreases s@.len() - i,
    {
        if s[i].asset_id == *asset {
            return Some(i);
        }
        i = i + 1;
    }
    None
}

/// Adds `ids` to the in-flight set of collection `asset`.
fn add_in_flight(cached: &mut Vec<InFlight>, asset: &String, ids: &Vec<String>)
    ensures
        in_flight(final(cached)@, asset@) is Some,
        forall|x: Seq<char>| #[trigger] flying(final(cached)@, asset@, x)
            <==> (flying(old(cached)@, asset@, x) || views(ids@).contains(x)),
        forall|a: Seq<char>| a != asset@ ==> #[trigger] in_flight(final(cached)@, a) == in_flight(old(cached)@, a),
{
    let ghost s = cached@;
    let slot = find_in_flight(cached, asset);
    let mut set = match slot {
        Some(i) => {
            proof {
                lemma_first_flight(s, asset@, i as int);
            }
            cached.remove(i)
        },
        None => InFlight { asset_id: asset.clone(), token_ids: Vec::new() },
    };
    let ghost base: Seq<Seq<char>> = views(set.token_ids@);
    assert(slot is None ==> base =~= Seq::<Seq<char>>::empty());
    let mut k: usize = 0;
    while k < ids.len()
        invariant
            k <= ids@.len(),
            set.asset_id@ == asset@,
            forall|x: Seq<char>| #[trigger] views(set.token_ids@).contains(x)
                <==> (base.contains(x) || views(ids@.subrange(0, k as int)).contains(x)),
        decreases ids@.len() - k,
    {
        assert(views(ids@.subrange(0, k + 1)) =~= views(ids@.subrange(0, k as int)).push(ids@[k as int]@));
        proof {
            crate::seqs::lemma_push_contains(views(ids@.subrange(0, k as int)), ids@[k as int]@);
        }
        insert_id(&mut set.token_ids, &ids[k]);
        k = k + 1;
    }
    assert(ids@.subrange(0, ids@.len() as int) =~= ids@);
    match slot {
        Some(i) => {
            cached.insert(i, set);
            proof {
                let t = cached@;
                assert(t =~= s.update(i as int, set));
                assert forall|m: int| 0 <= m < i implies t[m].asset_id@ != asset@ by {
                    assert(t[m] == s[m]);
                }
                assert(first_flight(t, asset@, i as int));
                lemma_first_flight(t, asset@, i as int);
                assert forall|a: Seq<char>| a != asset@ implies #[trigger] in_flight(t, a) == in_flight(s, a) by {
                    assert forall|m: int| 0 <= m < t.len() implies (#[trigger] t[m]).asset_id@ == asset@ || (m < s.len()
                        && t[m] == s[m]) by {}
                    lemma_flight_frame(s, t, asset@, a);
                }
            }
        },
        None => {
            cached.push(set);
            proof {
                let t = cached@;
                assert(t[s.len() as int] == set);
                assert forall|m: int| 0 <= m < s.len() implies t[m].asset_id@ != asset@ by {
                    assert(t[m] == s[m]);
                }
                assert(first_flight(t, asset@, s.len() as int));
                lemma_first_flight(t, asset@, s.len() as int);
                assert forall|a: Seq<char>| a != asset@ implies #[trigger] in_flight(t, a) == in_flight(s, a) by {
                    assert forall|m: int| 0 <= m < t.len() implies (#[trigger] t[m]).asset_id@ == asset@ || (m < s.len()
                        && t[m] == s[m]) by {
                        if m < s.len() {
                            assert(t[m] == s[m]);
                        }
                    }
                    lemma_flight_frame(s, t, asset@, a);
                }
            }
        },
    }
}

/// Takes the ids of `ids` that are in flight for `asset` out of the in-flight set; returns the
/// others, which must come from elsewhere.
fn take_in_flight(cached: &mut Vec<InFlight>, asset: &String, ids: &Vec<String>) -> (r: Vec<String>)
    ensures
        forall|x: Seq<char>| #[trigger] views(r@).contains(x)
            <==> (views(ids@).contains(x) && !flying(old(cached)@, asset@, x)),
        in_flight(final(cached)@, asset@) is Some <==> in_flight(old(cached)@, asset@) is Some,
        forall|x: Seq<char>| #[trigger] flying(final(cached)@, asset@, x)
            <==> (flying(old(cached)@, asset@, x) && !views(ids@).contains(x)),
        forall|a: Seq<char>| a != asset@ ==> #[trigger] in_flight(final(cached)@, a) == in_flight(old(cached)@, a),
{
    let ghost s = cached@;
    match find_in_flight(cached, asset) {
        Some(i) => {
            proof {
                lemma_first_flight(s, asset@, i as int);
            }
            let entry = cached.remove(i);
            let rest = remove_ids(&entry.token_ids, ids);
            let outside = remove_ids(ids, &entry.token_ids);
            let set = InFlight { asset_id: entry.asset_id, token_ids: rest };
            cached.insert(i, set);
            proof {
                let t = cached@;
                assert(t =~= s.update(i as int, set));
                assert forall|m: int| 0 <= m < i implies t[m].asset_id@ != asset@ by {
                    assert(t[m] == s[m]);
                }
                assert(first_flight(t, asset@, i as int));
                lemma_first_flight(t, asset@, i as int);
                assert forall|a: Seq<char>| a != asset@ implies #[trigger] in_flight(t, a) == in_flight(s, a) by {
                    assert forall|m: int| 0 <= m < t.len() implies (#[trigger] t[m]).asset_id@ == asset@ || (m < s.len()
                        && t[m] == s[m]) by {}
                    lemma_flight_frame(s, t, asset@, a);
                }
            }
            outside
        },
        None => {
            let out = clone_ids(ids);
            out
        },
    }
}

fn clone_ids(ids: &Vec<String>) -> (r: Vec<String>)
    ensures
        views(r@) == views(ids@),
{
    let mut out: Vec<String> = Vec::new();
    let mut k: usize = 0;
    while k < ids.len()
        invariant
            k <= ids@.len(),
            views(out@) == views(ids@.subrange(0, k as int)),
        decreases ids@.len() - k,
    {
        let ghost prev = out@;
        out.push(ids[k].clone());
        assert(out@ =~= prev.push(ids@[k as int]));
        assert(views(out@) =~= views(prev).push(ids@[k as int]@));
        assert(views(out@) =~= views(ids@.subrange(0, k + 1)));
        k = k + 1;
    }
    assert(ids@.subrange(0, ids@.len() as int) =~= ids@);
    out
}

/// What one buy hop does: `c`, `cf` are the engine and the in-flight sets before it, `c2`,
/// `cf2` after it, `r` its outcome (fee, coin charged, coin paid out).
pub open spec fn buy_hop(
    c: Contract,
    cf: Seq<InFlight>,
    action: Action,
    budget: u128,
    c2: Contract,
    cf2: Seq<InFlight>,
    r: Result<(u128, u128, u128), AmmError>,
) -> bool {
    let p = c.pools@[action.pool_id as int];
    let q2 = c2.pools@[action.pool_id as int];
    let asset = p.nft_token@;
    let pfm = c.protocol_fee_multiplier;
    let out = action.output_token_ids@;
    &&& (action.num_out_nfts is None ==> r == Err::<(u128, u128, u128), AmmError>(AmmError::InvalidNumOutNfts))
    &&& (action.num_out_nfts is Some && out.len() > 0 && out.len() != action.num_out_nfts->Some_0
        ==> r == Err::<(u128, u128, u128), AmmError>(AmmError::InvalidNumOutNfts))
    &&& (action.num_out_nfts is Some && (out.len() == 0 || out.len() == action.num_out_nfts->Some_0) ==> {
        let n = action.num_out_nfts->Some_0;
        let named = out.len() > 0;
        let q = p.buy_quote(n, pfm);
        let named_ok = !named || (views(out).no_duplicates() && forall|x: Seq<char>| views(out).contains(x)
            ==> #[trigger] p.held().contains(x));
        let bought = if named { views(out) } else { p.held().subrange(0, n as int) };
        let credited = p.asset_recipient is None || (c.staged(p.asset_recipient->Some_0@) && fits_u128(
            c.staged_balance(p.asset_recipient->Some_0@) + q.input_value.value() - q.protocol_fee.value()));
        &&& (p.buy_shape_error(n as int) is Some ==> r == Err::<(u128, u128, u128), AmmError>(
            p.buy_shape_error(n as int)->Some_0))
        &&& (p.buy_shape_error(n as int) is None && !named_ok ==> r == Err::<(u128, u128, u128), AmmError>(
            AmmError::TokenNotInPool))
        &&& (p.buy_shape_error(n as int) is None && named_ok && p.buy_error(n, budget, pfm) is Some
            ==> r == Err::<(u128, u128, u128), AmmError>(p.buy_error(n, budget, pfm)->Some_0))
        &&& (p.buy_shape_error(n as int) is None && named_ok && p.buy_error(n, budget, pfm) is None ==> (r is Ok
            <==> (fits_u128(c.protocol_fee_credit + q.protocol_fee.value()) && credited)))
        &&& r is Ok ==> {
            &&& r->Ok_0 == (q.protocol_fee.value() as u128, q.input_value.value() as u128, 0u128)
            &&& q2.spot_price == q.new_spot_price
            &&& q2.delta == q.new_delta
            &&& q2.near_balance == if p.asset_recipient is None {
                p.near_balance + q.input_value.value() - q.protocol_fee.value()
            } else {
                p.near_balance as int
            }
            &&& (named ==> forall|x: Seq<char>| #[trigger] q2.held().contains(x)
                <==> (p.held().contains(x) && !views(out).contains(x)))
            &&& (!named ==> q2.held() == p.held().subrange(n as int, p.held().len() as int))
            &&& forall|x: Seq<char>| #[trigger] flying(cf2, asset, x) <==> (flying(cf, asset, x) || bought.contains(x))
            &&& (p.asset_recipient is Some ==> c2.staged_balance(p.asset_recipient->Some_0@)
                == c.staged_balance(p.asset_recipient->Some_0@) + q.input_value.value() - q.protocol_fee.value())
            &&& (p.asset_recipient is None ==> c2.account_deposits == c.account_deposits)
        }
    })
}

/// What one sell hop does by `caller`; the ids sold are the given ones, or else those in flight.
pub open spec fn sell_hop(
    c: Contract,
    cf: Seq<InFlight>,
    caller: Seq<char>,
    action: Action,
    budget: u128,
    c2: Contract,
    cf2: Seq<InFlight>,
    r: Result<(u128, u128, u128), AmmError>,
) -> bool {
    let p = c.pools@[action.pool_id as int];
    let q2 = c2.pools@[action.pool_id as int];
    let asset = p.nft_token@;
    let pfm = c.protocol_fee_multiplier;
    let given = action.input_token_ids@.len() > 0;
    &&& (!given && in_flight(cf, asset) is None ==> r == Err::<(u128, u128, u128), AmmError>(
        AmmError::InvalidInputTokens))
    &&& (given || in_flight(cf, asset) is Some) ==> {
        let ids = if given { views(action.input_token_ids@) } else { in_flight(cf, asset)->Some_0 };
        let n = ids.len();
        let staged = staged_ids(c.account_deposits@, caller, asset);
        let from_staging = exists|x: Seq<char>| ids.contains(x) && !#[trigger] flying(cf, asset, x);
        let staging_ok = !from_staging || (staged is Some && forall|x: Seq<char>| ids.contains(x) && !flying(
            cf,
            asset,
            x,
        ) ==> #[trigger] staged->Some_0.contains(x));
        let q = p.sell_quote(n as u64, pfm);
        let out = paid_out(p.near_balance as int, q.output_value.value());
        let pf = paid_fee(p.near_balance as int, q.output_value.value(), q.protocol_fee.value());
        &&& r is Ok <==> (staging_ok && action.min_output_near is Some && 0 < n <= u64::MAX && p.pool_type
            != crate::pair::PoolType::NFT && p.sell_error(n as u64, action.min_output_near->Some_0, pfm) is None && (
        p.asset_recipient is None || c.staged(p.asset_recipient->Some_0@)) && budget + out <= u128::MAX
            && fits_u128(c.protocol_fee_credit + pf))
        &&& r is Ok ==> {
            &&& r->Ok_0 == (pf as u128, 0u128, out as u128)
            &&& q2.near_balance == p.near_balance - out - pf
            &&& q2.spot_price == q.new_spot_price
            &&& q2.delta == q.new_delta
            &&& (p.asset_recipient is None ==> forall|x: Seq<char>| #[trigger] q2.held().contains(x)
                <==> (p.held().contains(x) || ids.contains(x)))
            &&& (p.asset_recipient is Some ==> q2.held() == p.held())
            &&& (in_flight(cf2, asset) is Some <==> in_flight(cf, asset) is Some)
            &&& forall|x: Seq<char>| #[trigger] flying(cf2, asset, x) <==> (flying(cf, asset, x) && !ids.contains(x))
            &&& (p.asset_recipient is None && from_staging ==> staged_ids(c2.account_deposits@, caller, asset) is Some
                && forall|x: Seq<char>| #[trigger] staged_ids(c2.account_deposits@, caller, asset)->Some_0.contains(x)
                <==> (staged->Some_0.contains(x) && !(ids.contains(x) && !flying(cf, asset, x))))
            &&& (p.asset_recipient is None && !from_staging ==> c2.account_deposits == c.account_deposits)
            &&& (p.asset_recipient is Some ==> staged_ids(c2.account_deposits@, p.asset_recipient->Some_0@, asset) is Some
                && forall|x: Seq<char>| ids.contains(x) ==> #[trigger] staged_ids(
                c2.account_deposits@,
                p.asset_recipient->Some_0@,
                asset,
            )->Some_0.contains(x))
        }
    }
}

/// Coin left after hops that charged `spent` and paid `received`.
pub open spec fn budget_after(attached: u128, spent: Seq<u128>, received: Seq<u128>) -> u128 {
    (attached - total(spent) + total(received)) as u128
}

/// The non-empty in-flight sets, in order.
pub open spec fn nonempty(s: Seq<InFlight>) -> Seq<InFlight>
    decreases s.len(),
{
    if s.len() == 0 {
        Seq::empty()
    } else {
        let rest = nonempty(s.subrange(1, s.len() as int));
        if s[0].token_ids@.len() > 0 {
            seq![s[0]] + rest
        } else {
            rest
        }
    }
}

/// The first `upto` hops of a route: `states[k]`, `caches[k]` are the engine and in-flight sets
/// before hop `k`, and hop `k` succeeded with the listed fee, coin charged and coin paid.
pub open spec fn route(
    c0: Contract,
    caller: Seq<char>,
    actions: Seq<Action>,
    attached: u128,
    states: Seq<Contract>,
    caches: Seq<Seq<InFlight>>,
    fees: Seq<u128>,
    spent: Seq<u128>,
    received: Seq<u128>,
    upto: int,
) -> bool {
    &&& 0 <= upto <= actions.len()
    &&& states.len() == upto + 1
    &&& caches.len() == upto + 1
    &&& fees.len() == upto
    &&& spent.len() == upto
    &&& received.len() == upto
    &&& states[0] == c0
    &&& caches[0] == Seq::<InFlight>::empty()
    &&& forall|j: int| 0 <= j < upto ==> #[trigger] hop(
        states[j],
        caches[j],
        caller,
        actions[j],
        budget_after(attached, spent.subrange(0, j), received.subrange(0, j)),
        states[j + 1],
        caches[j + 1],
        Ok((fees[j], spent[j], received[j])),
    )
}

/// What one hop of a swap by `caller` does, with `budget` coin left before it.
pub open spec fn hop(
    c: Contract,
    cf: Seq<InFlight>,
    caller: Seq<char>,
    action: Action,
    budget: u128,
    c2: Contract,
    cf2: Seq<InFlight>,
    r: Result<(u128, u128, u128), AmmError>,
) -> bool {
    let id = action.pool_id;
    &&& c2.pools@.len() == c.pools@.len()
    &&& (id >= c.pools@.len() ==> r == Err::<(u128, u128, u128), AmmError>(AmmError::InvalidPoolId))
    &&& (r is Ok ==> {
        &&& c2.protocol_fee_credit == c.protocol_fee_credit + r->Ok_0.0
        &&& r->Ok_0.1 <= budget
        &&& budget - r->Ok_0.1 + r->Ok_0.2 <= u128::MAX
        &&& c2.protocol_fee_multiplier == c.protocol_fee_multiplier
        &&& forall|k: int| 0 <= k < c.pools@.len() && k != id ==> #[trigger] c2.pools@[k] == c.pools@[k]
        &&& forall|a: Seq<char>| a != c.pools@[id as int].nft_token@ ==> #[trigger] in_flight(cf2, a) == in_flight(cf, a)
    })
    &&& (id < c.pools@.len() ==> {
        &&& (action.swap_type > 1 ==> r == Err::<(u128, u128, u128), AmmError>(AmmError::UnknownSwapType))
        &&& (action.swap_type == 1 ==> buy_hop(c, cf, action, budget, c2, cf2, r))
        &&& (action.swap_type == 0 ==> sell_hop(c, cf, caller, action, budget, c2, cf2, r))
    })
}

impl Contract {
    #[verifier::rlimit(100)]
    #[verifier::loop_isolation(false)]
    /// Applies one action for `account_id` with `input_near_value` coin left; returns the
    /// hop's protocol fee, the coin it charged and the coin it paid out.
    pub fn internal_swap_with_action(
        &mut self,
        account_id: &String,
        action: &Action,
        cached_token_ids: &mut Vec<InFlight>,
        input_near_value: u128,
    ) -> (r: Result<(u128, u128, u128), AmmError>)
        requires
            old(self).wf(),
        ensures
            final(self).wf(),
            hop(
                *old(self),
                old(cached_token_ids)@,
                account_id@,
                *action,
                input_near_value,
                *final(self),
                final(cached_token_ids)@,
                r,
            ),
    {
        if action.pool_id >= self.pools.len() as u64 {
            return Err(AmmError::InvalidPoolId);
        }
        let len = self.pools.len();
        let idx = action.pool_id as usize;
        assert(idx == action.pool_id);
        let nft_token = self.pools[idx].nft_token.clone();
        let recipient = self.pools[idx].asset_recipient.clone();
        let swap_type = match SwapType::from_u8(action.swap_type) {
            Ok(t) => t,
            Err(e) => return Err(e),
        };
        assert(swap_type == SwapType::NearToNFT <==> action.swap_type == 1);
        let pfm = self.protocol_fee_multiplier;
        let ghost c = *old(self);
        let ghost cf = old(cached_token_ids)@;
        let ghost p = c.pools@[action.pool_id as int];
        match swap_type {
            SwapType::NFTToNear => {
                let nft_ids = if action.input_token_ids.len() == 0 {
                    match find_in_flight(cached_token_ids, &nft_token) {
                        Some(i) => {
                            proof {
                                lemma_first_flight(cf, nft_token@, i as int);
                            }
                            clone_ids(&cached_token_ids[i].token_ids)
                        },
                        None => return Err(AmmError::InvalidInputTokens),
                    }
                } else {
                    clone_ids(&action.input_token_ids)
                };
                let ghost ids = views(nft_ids@);
                assert(ids.len() == nft_ids@.len());
                // NFTs bought earlier in this swap are consumed from the in-flight set; the
                // rest come out of the caller's staging area.
                let to_withdraw = take_in_flight(cached_token_ids, &nft_token, &nft_ids);
                let ghost from_staging = exists|x: Seq<char>| ids.contains(x) && !#[trigger] flying(cf, nft_token@, x);
                proof {
                    if from_staging {
                        let x = choose|x: Seq<char>| ids.contains(x) && !#[trigger] flying(cf, nft_token@, x);
                        assert(views(to_withdraw@).contains(x));
                    }
                    if to_withdraw@.len() > 0 {
                        assert(views(to_withdraw@).contains(views(to_withdraw@)[0]));
                    }
                }
                if to_withdraw.len() > 0 {
                    match self.internal_withdraw_nft(account_id, &nft_token, &to_withdraw) {
                        Ok(()) => {},
                        Err(e) => return Err(e),
                    }
                }
                assert(forall|a: Seq<char>| #[trigger] self.staged(a) == c.staged(a));
                assert(self.pools == c.pools && self.protocol_fee_credit == c.protocol_fee_credit);
                let ghost c_mid = *self;
                let min_out = match action.min_output_near {
                    Some(m) => m,
                    None => return Err(AmmError::InvalidInputTokens),
                };
                if nft_ids.len() as u128 > u64::MAX as u128 {
                    return Err(AmmError::InvalidItemCount);
                }
                let ghost start = self.pools@;
                assert(start[action.pool_id as int] == p);
                let mut pool = self.take_pool(action.pool_id);
                let res = pool.swap_nfts_for_near(account_id, &nft_ids, min_out, pfm);
                self.put_pool(action.pool_id, pool, Ghost(start));
                let (protocol_fee, output_amount) = match res {
                    Ok(v) => v,
                    Err(e) => return Err(e),
                };
                let ghost c_pool = *self;
                assert(c_pool.account_deposits == c_mid.account_deposits);
                proof {
                    assert(c_pool.account_deposits == c_mid.account_deposits);
                    assert(forall|a: Seq<char>| #[trigger] c_pool.staged(a) == c_mid.staged(a));
                    assert(forall|a: Seq<char>| #[trigger] c_pool.staged(a) == c.staged(a));
                    assert(recipient == p.asset_recipient);
                }
                if let Some(rc) = &recipient {
                    let mut k: usize = 0;
                    while k < nft_ids.len()
                        invariant
                            k <= nft_ids@.len(),
                            self.wf(),
                            self.pools == c_pool.pools,
                            self.protocol_fee_credit == c_pool.protocol_fee_credit,
                            self.protocol_fee_multiplier == c_pool.protocol_fee_multiplier,
                            self.staged(rc@) == c_pool.staged(rc@),
                            k > 0 ==> staged_ids(self.account_deposits@, rc@, nft_token@) is Some,
                            k > 0 ==> c.staged(rc@),
                            forall|m: int| 0 <= m < k ==> #[trigger] staged_ids(self.account_deposits@, rc@, nft_token@)
                                ->Some_0.contains(views(nft_ids@)[m]),
                        decreases nft_ids@.len() - k,
                    {
                        let ghost before = self.account_deposits@;
                        match self.internal_deposit_nft(rc, &nft_token, &nft_ids[k]) {
                            Ok(()) => {},
                            Err(e) => return Err(e),
                        }
                        proof {
                            assert(views(nft_ids@)[k as int] == nft_ids@[k as int]@);
                            assert forall|m: int| 0 <= m < k + 1 implies #[trigger] staged_ids(
                                self.account_deposits@,
                                rc@,
                                nft_token@,
                            )->Some_0.contains(views(nft_ids@)[m]) by {
                                if m < k {
                                    assert(staged_ids(before, rc@, nft_token@)->Some_0.contains(views(nft_ids@)[m]));
                                }
                            }
                        }
                        k = k + 1;
                    }
                    proof {
                        assert forall|x: Seq<char>| ids.contains(x) implies #[trigger] staged_ids(
                            self.account_deposits@,
                            rc@,
                            nft_token@,
                        )->Some_0.contains(x) by {
                            let m = choose|m: int| 0 <= m < ids.len() && ids[m] == x;
                        }
                    }
                }
                if output_amount > u128::MAX - input_near_value || protocol_fee > u128::MAX - self.protocol_fee_credit {
                    return Err(AmmError::BalanceOverflow);
                }
                self.protocol_fee_credit = self.protocol_fee_credit + protocol_fee;
                proof {
                    let n = ids.len();
                    let q = p.sell_quote(n as u64, pfm);
                    let q2 = self.pools@[action.pool_id as int];
                    assert(ids == (if action.input_token_ids@.len() > 0 { views(action.input_token_ids@) } else {
                        in_flight(cf, nft_token@)->Some_0 }));
                    assert(output_amount == paid_out(p.near_balance as int, q.output_value.value()));
                    assert(protocol_fee == paid_fee(p.near_balance as int, q.output_value.value(), q.protocol_fee.value()));
                    assert(q2.near_balance == p.near_balance - output_amount - protocol_fee);
                    assert(p.asset_recipient is None ==> forall|x: Seq<char>| #[trigger] q2.held().contains(x)
                        <==> (p.held().contains(x) || ids.contains(x)));
                    assert(in_flight(cached_token_ids@, nft_token@) is Some <==> in_flight(cf, nft_token@) is Some);
                    assert(forall|x: Seq<char>| #[trigger] flying(cached_token_ids@, nft_token@, x)
                        <==> (flying(cf, nft_token@, x) && !ids.contains(x)));
                    assert(p.asset_recipient is None && !from_staging ==> self.account_deposits == c.account_deposits);
                    assert(p.asset_recipient is None && from_staging ==> staged_ids(self.account_deposits@, account_id@, nft_token@) is Some);
                    let staged = staged_ids(c.account_deposits@, account_id@, nft_token@);
                    assert(from_staging ==> staged is Some);
                    assert(from_staging ==> forall|x: Seq<char>| ids.contains(x) && !flying(cf, nft_token@, x)
                        ==> #[trigger] staged->Some_0.contains(x));
                    assert(0 < n <= u64::MAX);
                    assert(p.pool_type != crate::pair::PoolType::NFT);
                    assert(p.sell_error(n as u64, action.min_output_near->Some_0, pfm) is None);
                    assert(p.asset_recipient is None || c.staged(p.asset_recipient->Some_0@));
                    assert(p.asset_recipient is Some ==> staged_ids(self.account_deposits@, p.asset_recipient->Some_0@, nft_token@) is Some);
                }
                Ok((protocol_fee, 0, output_amount))
            },
            SwapType::NearToNFT => {
                let num_out = match action.num_out_nfts {
                    Some(n) => n,
                    None => return Err(AmmError::InvalidNumOutNfts),
                };
                if action.output_token_ids.len() > 0 && action.output_token_ids.len() as u128 != num_out as u128 {
                    return Err(AmmError::InvalidNumOutNfts);
                }
                let ghost start = self.pools@;
                assert(start[action.pool_id as int] == p);
                let mut pool = self.take_pool(action.pool_id);
                let res = if action.output_token_ids.len() > 0 {
                    match pool.swap_near_for_specific_nfts(input_near_value, &action.output_token_ids, pfm) {
                        Ok((protocol_fee, input_amount)) => Ok(
                            (protocol_fee, input_amount, clone_ids(&action.output_token_ids)),
                        ),
                        Err(e) => Err(e),
                    }
                } else {
                    pool.swap_near_for_any_nfts(input_near_value, num_out, pfm)
                };
                self.put_pool(action.pool_id, pool, Ghost(start));
                let (protocol_fee, input_amount, token_ids) = match res {
                    Ok(v) => v,
                    Err(e) => return Err(e),
                };
                if input_amount > input_near_value || protocol_fee > input_amount
                    || protocol_fee > u128::MAX - self.protocol_fee_credit {
                    return Err(AmmError::BalanceOverflow);
                }
                self.protocol_fee_credit = self.protocol_fee_credit + protocol_fee;
                add_in_flight(cached_token_ids, &nft_token, &token_ids);
                if let Some(rc) = &recipient {
                    match self.credit_staging(rc, input_amount - protocol_fee) {
                        Ok(()) => {},
                        Err(e) => return Err(e),
                    }
                }
                proof {
                    let q = p.buy_quote(num_out, pfm);
                    let named = action.output_token_ids@.len() > 0;
                    let bought = if named { views(action.output_token_ids@) } else { p.held().subrange(0, num_out as int) };
                    assert(protocol_fee == q.protocol_fee.value());
                    assert(input_amount == q.input_value.value());
                    assert(views(token_ids@) == bought);
                    assert(self.pools@[action.pool_id as int].spot_price == q.new_spot_price);
                    assert(forall|x: Seq<char>| #[trigger] flying(cached_token_ids@, nft_token@, x)
                        <==> (flying(cf, nft_token@, x) || bought.contains(x)));
                    assert(p.asset_recipient is None ==> self.account_deposits == c.account_deposits);
                    assert(p.asset_recipient is Some ==> self.staged_balance(p.asset_recipient->Some_0@)
                        == c.staged_balance(p.asset_recipient->Some_0@) + q.input_value.value() - q.protocol_fee.value());
                }
                Ok((protocol_fee, input_amount, 0))
            },
        }
    }

    /// Credits `amount` prepaid coin to the staging entry of `account_id`, which must exist.
    fn credit_staging(&mut self, account_id: &String, amount: u128) -> (r: Result<(), AmmError>)
        requires
            old(self).wf(),
        ensures
            final(self).wf(),
            r is Ok <==> (old(self).staged(account_id@) && fits_u128(old(self).staged_balance(account_id@) + amount)),
            r is Ok ==> final(self).staged_balance(account_id@) == old(self).staged_balance(account_id@) + amount,
            final(self).protocol_fee_multiplier == old(self).protocol_fee_multiplier,
            final(self).pools == old(self).pools,
            final(self).protocol_fee_credit == old(self).protocol_fee_credit,
    {
        match crate::staging::find_account(&self.account_deposits, account_id) {
            Some(i) => {
                proof {
                    assert(crate::staging::staged_accounts(self.account_deposits@)[i as int] == account_id@);
                }
                self.internal_register_account(account_id, amount)
            },
            None => Err(AmmError::AccountNotRegistered),
        }
    }

    /// Runs `actions` in order for `caller` with `attached_deposit` coin. Each hop acts as `hop`
    /// states on the engine and in-flight sets the previous hops left, with the coin left by
    /// them; the outcome lists each hop's fee, coin charged and coin paid, the coin left to
    /// refund, and the non-empty in-flight sets, which go to the caller.
    pub fn swap(&mut self, caller: &String, actions: &Vec<Action>, attached_deposit: u128) -> (r: Result<SwapOutcome, AmmError>)
        requires
            old(self).wf(),
        ensures
            final(self).wf(),
            actions@.len() == 0 ==> r == Err::<SwapOutcome, AmmError>(AmmError::InvalidInputTokens),
            actions@.len() > 0 && actions@[0].swap_type == 0 && actions@[0].input_token_ids@.len() == 0
                ==> r == Err::<SwapOutcome, AmmError>(AmmError::InvalidInputTokens),
            r is Ok ==> {
                let o = r->Ok_0;
                &&& o.refund == attached_deposit - total(o.hop_spent@) + total(o.hop_received@)
                &&& final(self).protocol_fee_credit == old(self).protocol_fee_credit + total(o.hop_fees@)
                &&& exists|states: Seq<Contract>, caches: Seq<Seq<InFlight>>|
                    #[trigger] route(
                        *old(self),
                        caller@,
                        actions@,
                        attached_deposit,
                        states,
                        caches,
                        o.hop_fees@,
                        o.hop_spent@,
                        o.hop_received@,
                        actions@.len() as int,
                    ) && states.last() == *final(self) && o.nft_transfers@ == nonempty(caches.last())
            },
            r is Err && actions@.len() > 0 && !(actions@[0].swap_type == 0 && actions@[0].input_token_ids@.len() == 0)
                ==> exists|k: int, states: Seq<Contract>, caches: Seq<Seq<InFlight>>, fees: Seq<u128>, spent: Seq<
                u128,
            >, received: Seq<u128>, c2: Contract, cf2: Seq<InFlight>, e: AmmError|
                0 <= k < actions@.len() && #[trigger] route(
                    *old(self),
                    caller@,
                    actions@,
                    attached_deposit,
                    states,
                    caches,
                    fees,
                    spent,
                    received,
                    k,
                ) && #[trigger] hop(
                    states[k],
                    caches[k],
                    caller@,
                    actions@[k],
                    budget_after(attached_deposit, spent, received),
                    c2,
                    cf2,
                    Err(e),
                ) && r == Err::<SwapOutcome, AmmError>(e),
    {
        if actions.len() == 0 {
            return Err(AmmError::InvalidInputTokens);
        }
        if actions[0].swap_type == 0 && actions[0].input_token_ids.len() == 0 {
            return Err(AmmError::InvalidInputTokens);
        }
        let mut remain = attached_deposit;
        let mut cached: Vec<InFlight> = Vec::new();
        let mut hop_fees: Vec<u128> = Vec::new();
        let mut hop_spent: Vec<u128> = Vec::new();
        let mut hop_received: Vec<u128> = Vec::new();
        let ghost mut states: Seq<Contract> = seq![*self];
        let ghost mut caches: Seq<Seq<InFlight>> = seq![cached@];
        assert(cached@ =~= Seq::<InFlight>::empty());
        let mut k: usize = 0;
        while k < actions.len()
            invariant
                k <= actions@.len(),
                self.wf(),
                route(*old(self), caller@, actions@, attached_deposit, states, caches, hop_fees@, hop_spent@,
                    hop_received@, k as int),
                states.last() == *self,
                caches.last() == cached@,
                remain == budget_after(attached_deposit, hop_spent@, hop_received@),
                remain == attached_deposit - total(hop_spent@) + total(hop_received@),
                self.protocol_fee_credit == old(self).protocol_fee_credit + total(hop_fees@),
                actions@.len() > 0,
                !(actions@[0].swap_type == 0 && actions@[0].input_token_ids@.len() == 0),
            decreases actions@.len() - k,
        {
            let ghost c_before = *self;
            let ghost cf_before = cached@;
            let res = self.internal_swap_with_action(caller, &actions[k], &mut cached, remain);
            let (protocol_fee, spent, received) = match res {
                Ok(v) => v,
                Err(e) => {
                    proof {
                        assert(hop(states[k as int], caches[k as int], caller@, actions@[k as int],
                            budget_after(attached_deposit, hop_spent@, hop_received@), *self, cached@, Err(e)));
                    }
                    return Err(e);
                },
            };
            let ghost pf0 = hop_fees@;
            let ghost ps = hop_spent@;
            let ghost pr = hop_received@;
            hop_fees.push(protocol_fee);
            hop_spent.push(spent);
            hop_received.push(received);
            proof {
                assert(hop_fees@.drop_last() =~= pf0);
                assert(hop_spent@.drop_last() =~= ps);
                assert(hop_received@.drop_last() =~= pr);
                let states2 = states.push(*self);
                let caches2 = caches.push(cached@);
                assert forall|j: int| 0 <= j < k + 1 implies #[trigger] hop(
                    states2[j],
                    caches2[j],
                    caller@,
                    actions@[j],
                    budget_after(attached_deposit, hop_spent@.subrange(0, j), hop_received@.subrange(0, j)),
                    states2[j + 1],
                    caches2[j + 1],
                    Ok((hop_fees@[j], hop_spent@[j], hop_received@[j])),
                ) by {
                    assert(hop_spent@.subrange(0, j) =~= ps.subrange(0, j) || j == k);
                    if j < k {
                        assert(hop_spent@.subrange(0, j) =~= ps.subrange(0, j));
                        assert(hop_received@.subrange(0, j) =~= pr.subrange(0, j));
                        assert(hop(states[j], caches[j], caller@, actions@[j],
                            budget_after(attached_deposit, ps.subrange(0, j), pr.subrange(0, j)),
                            states[j + 1], caches[j + 1], Ok((pf0[j], ps[j], pr[j]))));
                    } else {
                        assert(hop_spent@.subrange(0, j) =~= ps);
                        assert(hop_received@.subrange(0, j) =~= pr);
                    }
                }
                states = states2;
                caches = caches2;
            }
            remain = remain - spent + received;
            k = k + 1;
        }
        let ghost last = cached@;
        let mut transfers: Vec<InFlight> = Vec::new();
        proof {
            assert(transfers@ + nonempty(cached@) =~= nonempty(last));
        }
        while cached.len() > 0
            invariant
                transfers@ + nonempty(cached@) == nonempty(last),
            decreases cached@.len(),
        {
            let ghost before = cached@;
            let ghost tb = transfers@;
            let entry = cached.remove(0);
            proof {
                assert(cached@ =~= before.subrange(1, before.len() as int));
            }
            if entry.token_ids.len() > 0 {
                transfers.push(entry);
                proof {
                    assert(transfers@ + nonempty(cached@) =~= tb + nonempty(before));
                }
            } else {
                proof {
                    assert(transfers@ + nonempty(cached@) =~= tb + nonempty(before));
                }
            }
        }
        proof {
            assert(cached@.len() == 0);
            assert(nonempty(cached@) =~= Seq::<InFlight>::empty());
            assert(transfers@ =~= transfers@ + nonempty(cached@));
            assert(route(*old(self), caller@, actions@, attached_deposit, states, caches, hop_fees@, hop_spent@,
                hop_received@, actions@.len() as int) && states.last() == *self && transfers@ == nonempty(caches.last()));
        }
        Ok(SwapOutcome { refund: remain, nft_transfers: transfers, hop_fees, hop_spent, hop_received })
    }
}

} // verus!
