//! Pool-share ledger: per-account LP balances kept as a list with unique accounts.
use vstd::prelude::*;

verus! {

/// One account's pool shares.
#[derive(Clone, Debug)]
pub struct LpBalance {
    pub account_id: String,
    pub balance: u128,
}

/// Accounts of a share list, in order.
pub open spec fn lp_accounts(s: Seq<LpBalance>) -> Seq<Seq<char>> {
    s.map_values(|e: LpBalance| e.account_id@)
}

/// Sum of all balances of a share list.
pub open spec fn lp_sum(s: Seq<LpBalance>) -> int
    decreases s.len(),
{
    if s.len() == 0 {
        0
    } else {
        lp_sum(s.drop_last()) + s.last().balance
    }
}

/// Balance of account `a` (zero when it is not registered).
pub open spec fn lp_balance(s: Seq<LpBalance>, a: Seq<char>) -> int
    decreases s.len(),
{
    if s.len() == 0 {
        0
    } else if s.last().account_id@ == a {
        s.last().balance as int
    } else {
        lp_balance(s.drop_last(), a)
    }
}

pub proof fn lemma_lp_sum_update(s: Seq<LpBalance>, i: int, e: LpBalance)
    requires
        0 <= i < s.len(),
    ensures
        lp_sum(s.update(i, e)) == lp_sum(s) - s[i].balance + e.balance,
    decreases s.len(),
{
    let t = s.update(i, e);
    if i == s.len() - 1 {
        assert(t.drop_last() =~= s.drop_last());
    } else {
        assert(t.drop_last() =~= s.drop_last().update(i, e));
        lemma_lp_sum_update(s.drop_last(), i, e);
    }
}

pub proof fn lemma_lp_push(s: Seq<LpBalance>, e: LpBalance)
    ensures
        lp_sum(s.push(e)) == lp_sum(s) + e.balance,
        forall|a: Seq<char>| #[trigger] lp_balance(s.push(e), a)
            == if a == e.account_id@ { e.balance as int } else { lp_balance(s, a) },
        lp_accounts(s.push(e)) == lp_accounts(s).push(e.account_id@),
{
    assert(s.push(e).drop_last() =~= s);
    assert(lp_accounts(s.push(e)) =~= lp_accounts(s).push(e.account_id@));
}

pub proof fn lemma_lp_absent(s: Seq<LpBalance>, a: Seq<char>)
    requires
        !lp_accounts(s).contains(a),
    ensures
        lp_balance(s, a) == 0,
    decreases s.len(),
{
    if s.len() > 0 {
        assert(lp_accounts(s)[s.len() - 1] == s.last().account_id@);
        assert(lp_accounts(s.drop_last()) =~= lp_accounts(s).drop_last());
        if lp_accounts(s.drop_last()).contains(a) {
            let k = choose|k: int| 0 <= k < lp_accounts(s.drop_last()).len() && lp_accounts(s.drop_last())[k] == a;
            assert(lp_accounts(s)[k] == a);
        }
        lemma_lp_absent(s.drop_last(), a);
    }
}

pub proof fn lemma_lp_at(s: Seq<LpBalance>, i: int)
    requires
        0 <= i < s.len(),
        lp_accounts(s).no_duplicates(),
    ensures
        lp_balance(s, s[i].account_id@) == s[i].balance,
    decreases s.len(),
{
    if i < s.len() - 1 {
        assert(lp_accounts(s)[i] == s[i].account_id@);
        assert(lp_accounts(s)[s.len() - 1] == s.last().account_id@);
        assert(lp_accounts(s.drop_last()) =~= lp_accounts(s).drop_last());
        lemma_lp_at(s.drop_last(), i);
    }
}

pub proof fn lemma_lp_update(s: Seq<LpBalance>, i: int, e: LpBalance)
    requires
        0 <= i < s.len(),
        lp_accounts(s).no_duplicates(),
        e.account_id@ == s[i].account_id@,
    ensures
        lp_accounts(s.update(i, e)) == lp_accounts(s),
        forall|a: Seq<char>| #[trigger] lp_balance(s.update(i, e), a)
            == if a == e.account_id@ { e.balance as int } else { lp_balance(s, a) },
    decreases s.len(),
{
    let t = s.update(i, e);
    assert(lp_accounts(t) =~= lp_accounts(s));
    assert(lp_accounts(s)[i] == s[i].account_id@);
    if i == s.len() - 1 {
        assert(t.drop_last() =~= s.drop_last());
        assert forall|a: Seq<char>| #[trigger] lp_balance(t, a)
            == if a == e.account_id@ { e.balance as int } else { lp_balance(s, a) } by {
            if a == e.account_id@ {
            } else {
            }
        }
    } else {
        assert(t.drop_last() =~= s.drop_last().update(i, e));
        assert(lp_accounts(s)[s.len() - 1] == s.last().account_id@);
        assert(lp_accounts(s.drop_last()) =~= lp_accounts(s).drop_last());
        lemma_lp_update(s.drop_last(), i, e);
        assert(s.last().account_id@ != e.account_id@);
        assert(t.last() == s.last());
        assert forall|a: Seq<char>| #[trigger] lp_balance(t, a)
            == if a == e.account_id@ { e.balance as int } else { lp_balance(s, a) } by {
            assert(lp_balance(s.drop_last().update(i, e), a)
                == if a == e.account_id@ { e.balance as int } else { lp_balance(s.drop_last(), a) });
        }
    }
}

pub proof fn lemma_lp_pair_bounded(s: Seq<LpBalance>, i: int, j: int)
    requires
        0 <= i < s.len(),
        0 <= j < s.len(),
        i != j,
    ensures
        s[i].balance + s[j].balance <= lp_sum(s),
    decreases s.len(),
{
    lemma_lp_sum_nonneg(s.drop_last());
    if i == s.len() - 1 {
        lemma_lp_one_bounded(s.drop_last(), j);
    } else if j == s.len() - 1 {
        lemma_lp_one_bounded(s.drop_last(), i);
    } else {
        lemma_lp_pair_bounded(s.drop_last(), i, j);
    }
}

pub proof fn lemma_lp_one_bounded(s: Seq<LpBalance>, i: int)
    requires
        0 <= i < s.len(),
    ensures
        s[i].balance <= lp_sum(s),
    decreases s.len(),
{
    lemma_lp_sum_nonneg(s.drop_last());
    if i < s.len() - 1 {
        lemma_lp_one_bounded(s.drop_last(), i);
    }
}

pub proof fn lemma_lp_balance_nonneg(s: Seq<LpBalance>, a: Seq<char>)
    ensures
        lp_balance(s, a) >= 0,
    decreases s.len(),
{
    if s.len() > 0 {
        lemma_lp_balance_nonneg(s.drop_last(), a);
    }
}

pub proof fn lemma_lp_sum_nonneg(s: Seq<LpBalance>)
    ensures
        lp_sum(s) >= 0,
    decreases s.len(),
{
    if s.len() > 0 {
        lemma_lp_sum_nonneg(s.drop_last());
    }
}

/// Position of account `a` in the share list.
pub fn find_lp(s: &Vec<LpBalance>, a: &String) -> (r: Option<usize>)
    ensures
        match r {
            Some(i) => i < s@.len() && s@[i as int].account_id@ == a@,
            None => !lp_accounts(s@).contains(a@),
        },
{
    let mut i: usize = 0;
    while i < s.len()
        invariant
            i <= s@.len(),
            forall|k: int| 0 <= k < i ==> s@[k].account_id@ != a@,
        decreases s@.len() - i,
    {
        if s[i].account_id == *a {
            return Some(i);
        }
        i = i + 1;
    }
    proof {
        if lp_accounts(s@).contains(a@) {
            let k = choose|k: int| 0 <= k < lp_accounts(s@).len() && lp_accounts(s@)[k] == a@;
            assert(s@[k].account_id@ == a@);
        }
    }
    None
}

} // verus!
