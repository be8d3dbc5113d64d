//! Per-account staging area: NFTs and prepaid coin held by the engine for an account.
use vstd::prelude::*;
use crate::error::AmmError;
use crate::seqs::{lemma_push_contains, views};

verus! {

/// NFTs of one collection staged for an account.
#[derive(Debug)]
pub struct AssetDeposit {
    pub asset_id: String,
    pub token_ids: Vec<String>,
}

/// An account's staging entry.
#[derive(Debug)]
pub struct AccountDeposit {
    pub account_id: String,
    pub assets: Vec<AssetDeposit>,
    pub near_balance: u128,
    pub storage_usage: u64,
}

/// Accounts of a staging list.
pub open spec fn staged_accounts(s: Seq<AccountDeposit>) -> Seq<Seq<char>> {
    s.map_values(|d: AccountDeposit| d.account_id@)
}

/// Whether an entry of `a` stages token `t` of collection `asset`.
pub open spec fn holds(s: Seq<AccountDeposit>, a: Seq<char>, asset: Seq<char>, t: Seq<char>) -> bool {
    exists|i: int, j: int|
        0 <= i < s.len() && 0 <= j < s[i].assets@.len() && s[i].account_id@ == a
            && s[i].assets@[j].asset_id@ == asset && #[trigger] views(s[i].assets@[j].token_ids@).contains(t)
}

/// `i` is the first entry of account `a`.
pub open spec fn first_account(s: Seq<AccountDeposit>, a: Seq<char>, i: int) -> bool {
    0 <= i < s.len() && s[i].account_id@ == a && forall|k: int| 0 <= k < i ==> s[k].account_id@ != a
}

/// The staging entry of account `a`, if it has one.
pub open spec fn entry_of(s: Seq<AccountDeposit>, a: Seq<char>) -> Option<AccountDeposit> {
    if exists|i: int| first_account(s, a, i) {
        Some(s[choose|i: int| first_account(s, a, i)])
    } else {
        None
    }
}

/// `j` is the first staged collection `asset` of an entry.
pub open spec fn first_asset(s: Seq<AssetDeposit>, asset: Seq<char>, j: int) -> bool {
    0 <= j < s.len() && s[j].asset_id@ == asset && forall|k: int| 0 <= k < j ==> s[k].asset_id@ != asset
}

/// The token ids an entry stages for collection `asset`, if any.
pub open spec fn asset_ids(e: AccountDeposit, asset: Seq<char>) -> Option<Seq<Seq<char>>> {
    if exists|j: int| first_asset(e.assets@, asset, j) {
        Some(views(e.assets@[choose|j: int| first_asset(e.assets@, asset, j)].token_ids@))
    } else {
        None
    }
}

/// The ids account `a` stages for collection `asset`, if any.
pub open spec fn staged_ids(s: Seq<AccountDeposit>, a: Seq<char>, asset: Seq<char>) -> Option<Seq<Seq<char>>> {
    match entry_of(s, a) {
        Some(e) => asset_ids(e, asset),
        None => None,
    }
}

pub proof fn lemma_first_account(s: Seq<AccountDeposit>, a: Seq<char>, i: int)
    requires
        first_account(s, a, i),
    ensures
        entry_of(s, a) == Some(s[i]),
{
    let j = choose|j: int| first_account(s, a, j);
    if j < i {
        assert(s[j].account_id@ != a);
    } else if j > i {
        assert(s[i].account_id@ != a);
    }
}

pub proof fn lemma_first_asset(e: AccountDeposit, asset: Seq<char>, j: int)
    requires
        first_asset(e.assets@, asset, j),
    ensures
        asset_ids(e, asset) == Some(views(e.assets@[j].token_ids@)),
{
    let m = choose|m: int| first_asset(e.assets@, asset, m);
    if m < j {
        assert(e.assets@[m].asset_id@ != asset);
    } else if m > j {
        assert(e.assets@[j].asset_id@ != asset);
    }
}

/// Position of account `a`.
pub fn find_account(s: &Vec<AccountDeposit>, a: &String) -> (r: Option<usize>)
    ensures
        match r {
            Some(i) => first_account(s@, a@, i as int),
            None => !staged_accounts(s@).contains(a@) && entry_of(s@, a@).is_none(),
        },
{
    let mut i: usize = 0;
    while i < s.len()
        invariant
            i <= s@.len(),
            forall|k: int| 0 <= k < i ==> s@[k].account_id@ != a@,
        decreases s@.len() - i,
    {
        if s[i].account_id == *a {
            return Some(i);
        }
        i = i + 1;
    }
    proof {
        if staged_accounts(s@).contains(a@) {
            let k = choose|k: int| 0 <= k < staged_accounts(s@).len() && staged_accounts(s@)[k] == a@;
            assert(s@[k].account_id@ == a@);
        }
    }
    None
}

/// Position of collection `asset` among an account's staged collections.
pub fn find_asset(s: &Vec<AssetDeposit>, asset: &String) -> (r: Option<usize>)
    ensures
        match r {
            Some(j) => first_asset(s@, asset@, j as int),
            None => forall|j: int| 0 <= j < s@.len() ==> s@[j].asset_id@ != asset@,
        },
{
    let mut j: usize = 0;
    while j < s.len()
        invariant
            j <= s@.len(),
            forall|k: int| 0 <= k < j ==> s@[k].asset_id@ != asset@,
        decreases s@.len() - j,
    {
        if s[j].asset_id == *asset {
            return Some(j);
        }
        j = j + 1;
    }
    None
}

/// Position of `t` in a list of ids.
pub fn find_id(s: &Vec<String>, t: &String) -> (r: Option<usize>)
    ensures
        match r {
            Some(k) => k < s@.len() && s@[k as int]@ == t@,
            None => forall|k: int| 0 <= k < s@.len() ==> s@[k]@ != t@,
        },
{
    let mut k: usize = 0;
    while k < s.len()
        invariant
            k <= s@.len(),
            forall|m: int| 0 <= m < k ==> s@[m]@ != t@,
        decreases s@.len() - k,
    {
        if s[k] == *t {
            return Some(k);
        }
        k = k + 1;
    }
    None
}

/// Adds `t` to `ids` unless already there.
pub fn insert_id(ids: &mut Vec<String>, t: &String)
    ensures
        forall|x: Seq<char>| #[trigger] views(final(ids)@).contains(x) <==> (views(old(ids)@).contains(x) || x == t@),
{
    match find_id(ids, t) {
        Some(k) => {
            assert(views(ids@)[k as int] == t@);
        },
        None => {
            let ghost prev = ids@;
            ids.push(t.clone());
            assert(views(ids@) =~= views(prev).push(t@));
            proof {
                lemma_push_contains(views(prev), t@);
            }
        },
    }
}

/// The ids of `ids` that are not in `gone`, in their order.
pub fn remove_ids(ids: &Vec<String>, gone: &Vec<String>) -> (r: Vec<String>)
    ensures
        forall|x: Seq<char>| #[trigger] views(r@).contains(x)
            <==> (views(ids@).contains(x) && !views(gone@).contains(x)),
{
    let mut out: Vec<String> = Vec::new();
    let mut k: usize = 0;
    while k < ids.len()
        invariant
            k <= ids@.len(),
            forall|x: Seq<char>| #[trigger] views(out@).contains(x)
                <==> (views(ids@.subrange(0, k as int)).contains(x) && !views(gone@).contains(x)),
        decreases ids@.len() - k,
    {
        let ghost prev = out@;
        let ghost t = ids@[k as int]@;
        assert(views(ids@.subrange(0, k + 1)) =~= views(ids@.subrange(0, k as int)).push(t));
        proof {
            lemma_push_contains(views(ids@.subrange(0, k as int)), t);
        }
        match find_id(gone, &ids[k]) {
            None => {
                out.push(ids[k].clone());
                assert(views(out@) =~= views(prev).push(t));
                proof {
                    lemma_push_contains(views(prev), t);
                    assert forall|m: int| 0 <= m < gone@.len() implies views(gone@)[m] != t by {}
                }
            },
            Some(m) => {
                assert(views(gone@)[m as int] == t);
            },
        }
        k = k + 1;
    }
    assert(ids@.subrange(0, ids@.len() as int) =~= ids@);
    out
}

} // verus!
