//! Changes of balances: one credit or debit, and a sequence of them applied in
//! turn, all or nothing.

use vstd::prelude::*;
use crate::payout::seq_sum;
use crate::rows::{account_index, pair_sum, lemma_index_bounds, find_account, same_keys};
use crate::structs::{AccountRow, AccountUpdate, BetError};

verus! {

/// Adds `delta` to the balance of `user` on `server`: the new account rows and the
/// update that describes the change. The account must exist and the new balance
/// must lie in `[0, u64::MAX]`.
pub open spec fn credit(accs: Seq<AccountRow>, server: u64, user: u64, delta: int) -> Result<
    (Seq<AccountRow>, AccountUpdate),
    BetError,
> {
    let i = account_index(accs, server, user);
    if i < 0 {
        Err(BetError::NotFound)
    } else if accs[i].balance + delta < 0 {
        Err(BetError::NotEnoughMoney)
    } else if accs[i].balance + delta > u64::MAX {
        Err(BetError::InternalError)
    } else {
        let nb = (accs[i].balance + delta) as u64;
        Ok(
            (
                accs.update(i, AccountRow { server, user, balance: nb }),
                AccountUpdate { server, user, diff: delta as i128, balance: nb },
            ),
        )
    }
}

/// Applies the credits `cs` (user, amount) on `server` one after the other; the
/// first that fails decides the error.
pub open spec fn credit_all(accs: Seq<AccountRow>, server: u64, cs: Seq<(u64, u64)>) -> Result<
    (Seq<AccountRow>, Seq<AccountUpdate>),
    BetError,
>
    decreases cs.len(),
{
    if cs.len() == 0 {
        Ok((accs, Seq::empty()))
    } else {
        match credit_all(accs, server, cs.drop_last()) {
            Err(e) => Err(e),
            Ok((a, us)) => match credit(a, server, cs.last().0, cs.last().1 as int) {
                Err(e) => Err(e),
                Ok((a2, u)) => Ok((a2, us.push(u))),
            },
        }
    }
}

/// Adds `delta` to a balance, as `credit` says; on failure nothing changes.
pub(crate) fn change_balance(accs: &mut Vec<AccountRow>, server: u64, user: u64, delta: i128) -> (r: Result<
    AccountUpdate,
    BetError,
>)
    requires
        -0xffff_ffff_ffff_ffffi128 <= delta <= 0xffff_ffff_ffff_ffffi128,
    ensures
        match credit(old(accs)@, server, user, delta as int) {
            Ok((a, u)) => r == Ok::<AccountUpdate, BetError>(u) && final(accs)@ == a,
            Err(e) => r == Err::<AccountUpdate, BetError>(e) && final(accs)@ == old(accs)@,
        },
{
    match find_account(accs, server, user) {
        None => Err(BetError::NotFound),
        Some(i) => {
            let b: i128 = accs[i].balance as i128;
            if delta < 0 && b < -delta {
                return Err(BetError::NotEnoughMoney);
            }
            if delta > 0 && b > 0xffff_ffff_ffff_ffff - delta {
                return Err(BetError::InternalError);
            }
            let nb = (b + delta) as u64;
            accs.set(i, AccountRow { server, user, balance: nb });
            Ok(AccountUpdate { server, user, diff: delta, balance: nb })
        },
    }
}

/// Applies the credits `cs` in turn, as `credit_all` says; on failure nothing
/// changes.
pub(crate) fn credit_each(accs: &mut Vec<AccountRow>, server: u64, cs: &Vec<(u64, u64)>) -> (r: Result<
    Vec<AccountUpdate>,
    BetError,
>)
    ensures
        match credit_all(old(accs)@, server, cs@) {
            Ok((a, us)) => r matches Ok(v) && v@ == us && final(accs)@ == a,
            Err(e) => r == Err::<Vec<AccountUpdate>, BetError>(e) && final(accs)@ == old(accs)@,
        },
{
    let mut work: Vec<AccountRow> = accs.clone();
    assert(work@ =~= accs@);
    let mut ups: Vec<AccountUpdate> = Vec::new();
    let mut i: usize = 0;
    while i < cs.len()
        invariant
            0 <= i <= cs@.len(),
            credit_all(accs@, server, cs@.subrange(0, i as int)) == Ok::<
                (Seq<AccountRow>, Seq<AccountUpdate>),
                BetError,
            >((work@, ups@)),
        decreases cs@.len() - i,
    {
        assert(cs@.subrange(0, i + 1).drop_last() =~= cs@.subrange(0, i as int));
        let (user, amount) = cs[i];
        match change_balance(&mut work, server, user, amount as i128) {
            Ok(u) => {
                ups.push(u);
            },
            Err(e) => {
                proof {
                    lemma_credit_all_err_prefix(accs@, server, cs@, i as int + 1);
                }
                return Err(e);
            },
        }
        i = i + 1;
    }
    assert(cs@.subrange(0, cs@.len() as int) =~= cs@);
    *accs = work;
    Ok(ups)
}

/// Once a prefix of the credits fails, the whole sequence fails the same way.
pub(crate) proof fn lemma_credit_all_err_prefix(accs: Seq<AccountRow>, server: u64, cs: Seq<(u64, u64)>, n: int)
    requires
        0 <= n <= cs.len(),
        credit_all(accs, server, cs.subrange(0, n)) is Err,
    ensures
        credit_all(accs, server, cs) == credit_all(accs, server, cs.subrange(0, n)),
    decreases cs.len() - n,
{
    if n < cs.len() {
        assert(cs.subrange(0, n + 1).drop_last() =~= cs.subrange(0, n));
        lemma_credit_all_err_prefix(accs, server, cs, n + 1);
    } else {
        assert(cs.subrange(0, n) =~= cs);
    }
}

pub(crate) proof fn lemma_credit_all_keys(accs: Seq<AccountRow>, server: u64, cs: Seq<(u64, u64)>)
    requires
        credit_all(accs, server, cs) is Ok,
    ensures
        same_keys(accs, credit_all(accs, server, cs)->Ok_0.0),
    decreases cs.len(),
{
    if cs.len() > 0 {
        lemma_credit_all_keys(accs, server, cs.drop_last());
        let a = credit_all(accs, server, cs.drop_last())->Ok_0.0;
        lemma_credit_keys(a, server, cs.last().0, cs.last().1 as int);
    }
}

pub(crate) proof fn lemma_credit_keys(accs: Seq<AccountRow>, server: u64, user: u64, delta: int)
    requires
        credit(accs, server, user, delta) is Ok,
    ensures
        same_keys(accs, credit(accs, server, user, delta)->Ok_0.0),
{
    lemma_index_bounds(accs, server, user, Seq::empty(), 0, Seq::empty(), 0);
}

/// The credits of a resolution: winner `i` of `w` is paid `p[i]`.
pub open spec fn zip_credits(w: Seq<(u64, u64)>, p: Seq<u64>) -> Seq<(u64, u64)> {
    Seq::new(w.len(), |i: int| (w[i].0, p[i]))
}

/// Sum of the changes that updates made.
pub open spec fn diff_sum(us: Seq<AccountUpdate>) -> int
    decreases us.len(),
{
    if us.len() == 0 {
        0
    } else {
        diff_sum(us.drop_last()) + us.last().diff
    }
}

/// Applying credits one after the other issues one update per credit, to that
/// user and by that amount.
pub proof fn lemma_updates_follow_credits(accs: Seq<AccountRow>, server: u64, cs: Seq<(u64, u64)>)
    requires
        credit_all(accs, server, cs) is Ok,
    ensures
        credit_all(accs, server, cs)->Ok_0.1.len() == cs.len(),
        forall|k: int|
            0 <= k < cs.len() ==> (#[trigger] credit_all(accs, server, cs)->Ok_0.1[k]).user == cs[k].0
                && credit_all(accs, server, cs)->Ok_0.1[k].diff == cs[k].1,
        diff_sum(credit_all(accs, server, cs)->Ok_0.1) == pair_sum(cs),
    decreases cs.len(),
{
    if cs.len() > 0 {
        lemma_updates_follow_credits(accs, server, cs.drop_last());
        let us = credit_all(accs, server, cs)->Ok_0.1;
        let prev = credit_all(accs, server, cs.drop_last())->Ok_0.1;
        assert(us.drop_last() == prev);
        assert forall|k: int| 0 <= k < cs.len() implies (#[trigger] us[k]).user == cs[k].0
            && us[k].diff == cs[k].1 by {
            if k < cs.len() - 1 {
                assert(us[k] == prev[k]);
                assert(cs.drop_last()[k] == cs[k]);
            }
        }
    }
}

/// Pairing winners with payouts hands out exactly the payouts.
pub(crate) proof fn lemma_zip_credits_sum(w: Seq<(u64, u64)>, p: Seq<u64>)
    requires
        w.len() == p.len(),
    ensures
        pair_sum(zip_credits(w, p)) == seq_sum(p),
    decreases w.len(),
{
    if w.len() > 0 {
        assert(zip_credits(w, p).drop_last() =~= zip_credits(w.drop_last(), p.drop_last()));
        lemma_zip_credits_sum(w.drop_last(), p.drop_last());
    }
}

} // verus!
