//! Row-level model of the ledger tables: lookups by key, uniqueness of keys,
//! and the filters and per-row changes that the ledger operations apply.

use vstd::prelude::*;
use crate::structs::{AccountRow, AccountUpdate, BetRow, WagerRow};

verus! {

/// Index of the account of `user` on `server`, or -1 if there is none.
pub open spec fn account_index(accs: Seq<AccountRow>, server: u64, user: u64) -> int
    decreases accs.len(),
{
    if accs.len() == 0 {
        -1
    } else if accs.last().server == server && accs.last().user == user {
        accs.len() - 1
    } else {
        account_index(accs.drop_last(), server, user)
    }
}

/// Index of the bet `uuid`, or -1 if there is none.
pub open spec fn bet_index(bets: Seq<BetRow>, uuid: u64) -> int
    decreases bets.len(),
{
    if bets.len() == 0 {
        -1
    } else if bets.last().uuid == uuid {
        bets.len() - 1
    } else {
        bet_index(bets.drop_last(), uuid)
    }
}

/// Index of `user`'s wager on `bet`, or -1 if there is none.
pub open spec fn wager_index(ws: Seq<WagerRow>, bet: u64, user: u64) -> int
    decreases ws.len(),
{
    if ws.len() == 0 {
        -1
    } else if ws.last().bet == bet && ws.last().user == user {
        ws.len() - 1
    } else {
        wager_index(ws.drop_last(), bet, user)
    }
}

/// The `(user, amount)` pairs staked on `outcome` of `bet`, in the order of the rows.
pub open spec fn wagers_on(ws: Seq<WagerRow>, bet: u64, outcome: int) -> Seq<(u64, u64)>
    decreases ws.len(),
{
    if ws.len() == 0 {
        Seq::empty()
    } else if ws.last().bet == bet && ws.last().outcome == outcome {
        wagers_on(ws.drop_last(), bet, outcome).push((ws.last().user, ws.last().amount))
    } else {
        wagers_on(ws.drop_last(), bet, outcome)
    }
}

/// The `(user, amount)` pairs staked on any outcome of `bet`, outcome by outcome.
pub open spec fn wagers_of_bet(ws: Seq<WagerRow>, bet: u64, n_outcomes: int) -> Seq<(u64, u64)>
    decreases n_outcomes,
{
    if n_outcomes <= 0 {
        Seq::empty()
    } else {
        wagers_of_bet(ws, bet, n_outcomes - 1) + wagers_on(ws, bet, n_outcomes - 1)
    }
}

/// Sum of the amounts of `(user, amount)` pairs.
pub open spec fn pair_sum(p: Seq<(u64, u64)>) -> int
    decreases p.len(),
{
    if p.len() == 0 {
        0
    } else {
        pair_sum(p.drop_last()) + p.last().1
    }
}

/// The amounts of `(user, amount)` pairs.
pub open spec fn pair_amounts(p: Seq<(u64, u64)>) -> Seq<u64> {
    p.map_values(|x: (u64, u64)| x.1)
}

pub(crate) proof fn lemma_index_bounds(accs: Seq<AccountRow>, server: u64, user: u64, bets: Seq<BetRow>, uuid: u64, ws: Seq<WagerRow>, bet: u64)
    ensures
        -1 <= account_index(accs, server, user) < accs.len(),
        -1 <= bet_index(bets, uuid) < bets.len(),
        -1 <= wager_index(ws, bet, user) < ws.len(),
        account_index(accs, server, user) >= 0 ==> accs[account_index(accs, server, user)].server
            == server && accs[account_index(accs, server, user)].user == user,
        bet_index(bets, uuid) >= 0 ==> bets[bet_index(bets, uuid)].uuid == uuid,
        wager_index(ws, bet, user) >= 0 ==> ws[wager_index(ws, bet, user)].bet == bet
            && ws[wager_index(ws, bet, user)].user == user,
    decreases accs.len() + bets.len() + ws.len(),
{
    if accs.len() > 0 {
        lemma_index_bounds(accs.drop_last(), server, user, bets, uuid, ws, bet);
    }
    if bets.len() > 0 {
        lemma_index_bounds(accs, server, user, bets.drop_last(), uuid, ws, bet);
    }
    if ws.len() > 0 {
        lemma_index_bounds(accs, server, user, bets, uuid, ws.drop_last(), bet);
    }
}

pub(crate) fn find_account(accs: &Vec<AccountRow>, server: u64, user: u64) -> (r: Option<usize>)
    ensures
        -1 <= account_index(accs@, server, user) < accs@.len(),
        account_index(accs@, server, user) < 0 ==> r is None,
        r matches Some(j) ==> j == account_index(accs@, server, user),
            account_index(accs@, server, user) >= 0 ==> r is Some,
        r matches Some(i) ==> i < accs@.len() && accs@[i as int].server == server && accs@[i as int].user == user,
{
    let mut found: Option<usize> = None;
    let mut i: usize = 0;
    while i < accs.len()
        invariant
            found matches Some(j) ==> j < i && accs@[j as int].server == server && accs@[j as int].user == user,
            0 <= i <= accs@.len(),
            account_index(accs@.subrange(0, i as int), server, user) < 0 ==> found is None,
            account_index(accs@.subrange(0, i as int), server, user) >= 0 ==> found == Some(
                account_index(accs@.subrange(0, i as int), server, user) as usize,
            ),
        decreases accs@.len() - i,
    {
        assert(accs@.subrange(0, i + 1).drop_last() =~= accs@.subrange(0, i as int));
        if accs[i].server == server && accs[i].user == user {
            found = Some(i);
        }
        i = i + 1;
    }
    assert(accs@.subrange(0, accs@.len() as int) =~= accs@);
    proof {
        lemma_index_bounds(accs@, server, user, Seq::empty(), 0, Seq::empty(), 0);
    }
    found
}

pub(crate) fn find_bet(bets: &Vec<BetRow>, uuid: u64) -> (r: Option<usize>)
    ensures
        -1 <= bet_index(bets@, uuid) < bets@.len(),
        bet_index(bets@, uuid) < 0 ==> r is None,
        r matches Some(j) ==> j == bet_index(bets@, uuid),
            bet_index(bets@, uuid) >= 0 ==> r is Some,
        r matches Some(i) ==> i < bets@.len() && bets@[i as int].uuid == uuid,
{
    let mut found: Option<usize> = None;
    let mut i: usize = 0;
    while i < bets.len()
        invariant
            found matches Some(j) ==> j < i && bets@[j as int].uuid == uuid,
            0 <= i <= bets@.len(),
            bet_index(bets@.subrange(0, i as int), uuid) < 0 ==> found is None,
            bet_index(bets@.subrange(0, i as int), uuid) >= 0 ==> found == Some(
                bet_index(bets@.subrange(0, i as int), uuid) as usize,
            ),
        decreases bets@.len() - i,
    {
        assert(bets@.subrange(0, i + 1).drop_last() =~= bets@.subrange(0, i as int));
        if bets[i].uuid == uuid {
            found = Some(i);
        }
        i = i + 1;
    }
    assert(bets@.subrange(0, bets@.len() as int) =~= bets@);
    proof {
        lemma_index_bounds(Seq::empty(), 0, 0, bets@, uuid, Seq::empty(), 0);
    }
    found
}

pub(crate) fn find_wager(ws: &Vec<WagerRow>, bet: u64, user: u64) -> (r: Option<usize>)
    ensures
        -1 <= wager_index(ws@, bet, user) < ws@.len(),
        wager_index(ws@, bet, user) < 0 ==> r is None,
        r matches Some(j) ==> j == wager_index(ws@, bet, user),
            wager_index(ws@, bet, user) >= 0 ==> r is Some,
        r matches Some(i) ==> i < ws@.len() && ws@[i as int].bet == bet && ws@[i as int].user == user,
{
    let mut found: Option<usize> = None;
    let mut i: usize = 0;
    while i < ws.len()
        invariant
            found matches Some(j) ==> j < i && ws@[j as int].bet == bet && ws@[j as int].user == user,
            0 <= i <= ws@.len(),
            wager_index(ws@.subrange(0, i as int), bet, user) < 0 ==> found is None,
            wager_index(ws@.subrange(0, i as int), bet, user) >= 0 ==> found == Some(
                wager_index(ws@.subrange(0, i as int), bet, user) as usize,
            ),
        decreases ws@.len() - i,
    {
        assert(ws@.subrange(0, i + 1).drop_last() =~= ws@.subrange(0, i as int));
        if ws[i].bet == bet && ws[i].user == user {
            found = Some(i);
        }
        i = i + 1;
    }
    assert(ws@.subrange(0, ws@.len() as int) =~= ws@);
    proof {
        lemma_index_bounds(Seq::empty(), 0, user, Seq::empty(), 0, ws@, bet);
    }
    found
}

/// The row of a bet once it no longer takes stakes.
pub open spec fn locked(b: BetRow) -> BetRow {
    BetRow {
        uuid: b.uuid,
        server: b.server,
        author: b.author,
        desc: b.desc,
        is_open: false,
        outcomes: b.outcomes,
    }
}

/// One account row per `(server, user)`.
pub open spec fn accounts_unique(accs: Seq<AccountRow>) -> bool {
    forall|i: int, j: int|
        0 <= i < j < accs.len() ==> !(#[trigger] accs[i].server == #[trigger] accs[j].server
            && accs[i].user == accs[j].user)
}

/// One bet row per id.
pub open spec fn bets_unique(bets: Seq<BetRow>) -> bool {
    forall|i: int, j: int|
        0 <= i < j < bets.len() ==> #[trigger] bets[i].uuid != #[trigger] bets[j].uuid
}

/// One wager row per `(bet, user)`.
pub open spec fn wagers_unique(ws: Seq<WagerRow>) -> bool {
    forall|i: int, j: int|
        0 <= i < j < ws.len() ==> !(#[trigger] ws[i].bet == #[trigger] ws[j].bet && ws[i].user
            == ws[j].user)
}

/// Keeping some of the wager rows keeps them one per user and bet.
pub(crate) proof fn lemma_filter_wagers_unique(ws: Seq<WagerRow>, pred: spec_fn(WagerRow) -> bool)
    requires
        wagers_unique(ws),
    ensures
        wagers_unique(ws.filter(pred)),
    decreases ws.len(),
{
    reveal_with_fuel(Seq::<WagerRow>::filter, 1);
    if ws.len() > 0 {
        let rest = ws.drop_last();
        assert(wagers_unique(rest)) by {
            assert forall|i: int, j: int| 0 <= i < j < rest.len() implies !(#[trigger] rest[i].bet
                == #[trigger] rest[j].bet && rest[i].user == rest[j].user) by {
                assert(rest[i] == ws[i] && rest[j] == ws[j]);
            }
        }
        lemma_filter_wagers_unique(rest, pred);
        if pred(ws.last()) {
            let f = rest.filter(pred);
            let x = ws.last();
            assert forall|k: int| 0 <= k < f.len() implies !(#[trigger] f[k].bet == x.bet && f[k].user
                == x.user) by {
                assert(f.contains(f[k]));
                rest.lemma_filter_contains_rev(pred, f[k]);
                let j = choose|j: int| 0 <= j < rest.len() && rest[j] == f[k];
                assert(ws[j] == rest[j]);
                assert(!(ws[j].bet == ws[ws.len() - 1].bet && ws[j].user == ws[ws.len() - 1].user));
            }
            let g = f.push(x);
            assert forall|i: int, j: int| 0 <= i < j < g.len() implies !(#[trigger] g[i].bet
                == #[trigger] g[j].bet && g[i].user == g[j].user) by {
                if j == g.len() - 1 {
                    assert(g[i] == f[i]);
                } else {
                    assert(g[i] == f[i] && g[j] == f[j]);
                }
            }
        }
    }
}

/// With no index for `(bet, user)`, no wager row has that key.
pub(crate) proof fn lemma_wager_index_absent(ws: Seq<WagerRow>, bet: u64, user: u64)
    requires
        wager_index(ws, bet, user) < 0,
    ensures
        forall|k: int| 0 <= k < ws.len() ==> !(#[trigger] ws[k].bet == bet && ws[k].user == user),
    decreases ws.len(),
{
    if ws.len() > 0 {
        lemma_wager_index_absent(ws.drop_last(), bet, user);
        assert forall|k: int| 0 <= k < ws.len() implies !(#[trigger] ws[k].bet == bet && ws[k].user
            == user) by {
            if k < ws.len() - 1 {
                assert(ws.drop_last()[k] == ws[k]);
            }
        }
    }
}

/// The same `(server, user)` keys at the same places.
pub open spec fn same_keys(a: Seq<AccountRow>, b: Seq<AccountRow>) -> bool {
    a.len() == b.len() && forall|k: int|
        0 <= k < a.len() ==> #[trigger] a[k].server == b[k].server && a[k].user == b[k].user
}

pub(crate) proof fn lemma_same_keys_unique(a: Seq<AccountRow>, b: Seq<AccountRow>)
    requires
        same_keys(a, b),
        accounts_unique(a),
    ensures
        accounts_unique(b),
{
    assert forall|i: int, j: int| 0 <= i < j < b.len() implies !(#[trigger] b[i].server
        == #[trigger] b[j].server && b[i].user == b[j].user) by {
        assert(a[i].server == b[i].server && a[j].server == b[j].server);
    }
}

/// With no index for `uuid`, no row has that id.
pub(crate) proof fn lemma_bet_index_absent(bets: Seq<BetRow>, uuid: u64)
    requires
        bet_index(bets, uuid) < 0,
    ensures
        forall|k: int| 0 <= k < bets.len() ==> #[trigger] bets[k].uuid != uuid,
    decreases bets.len(),
{
    if bets.len() > 0 {
        lemma_bet_index_absent(bets.drop_last(), uuid);
        assert forall|k: int| 0 <= k < bets.len() implies #[trigger] bets[k].uuid != uuid by {
            if k < bets.len() - 1 {
                assert(bets.drop_last()[k] == bets[k]);
            }
        }
    }
}

/// With no index for `(server, user)`, no row has that key.
pub(crate) proof fn lemma_account_index_absent(accs: Seq<AccountRow>, server: u64, user: u64)
    requires
        account_index(accs, server, user) < 0,
    ensures
        forall|k: int|
            0 <= k < accs.len() ==> !(#[trigger] accs[k].server == server && accs[k].user == user),
    decreases accs.len(),
{
    if accs.len() > 0 {
        lemma_account_index_absent(accs.drop_last(), server, user);
        assert forall|k: int| 0 <= k < accs.len() implies !(#[trigger] accs[k].server == server
            && accs[k].user == user) by {
            if k < accs.len() - 1 {
                assert(accs.drop_last()[k] == accs[k]);
            }
        }
    }
}

/// The row a wager takes after `stake` more coins are put on it.
pub open spec fn topped_up(w: WagerRow, stake: u64) -> WagerRow {
    WagerRow {
        bet: w.bet,
        outcome: w.outcome,
        server: w.server,
        user: w.user,
        amount: (w.amount + stake) as u64,
    }
}

pub(crate) proof fn lemma_pair_sum_bound(p: Seq<(u64, u64)>)
    ensures
        0 <= pair_sum(p) <= p.len() * 0xffff_ffff_ffff_ffffint,
    decreases p.len(),
{
    if p.len() > 0 {
        lemma_pair_sum_bound(p.drop_last());
        assert(pair_sum(p) <= p.len() * 0xffff_ffff_ffff_ffffint) by (nonlinear_arith)
            requires
                pair_sum(p) == pair_sum(p.drop_last()) + p.last().1,
                pair_sum(p.drop_last()) <= (p.len() - 1) * 0xffff_ffff_ffff_ffffint,
                p.last().1 <= 0xffff_ffff_ffff_ffffint,
        ;
    }
}

/// Bet `id` exists and belongs to `server`.
pub open spec fn on_server(bets: Seq<BetRow>, id: u64, server: u64) -> bool {
    bet_index(bets, id) >= 0 && bets[bet_index(bets, id)].server == server
}

/// An account row after a reset of its server to `amount` coins.
pub open spec fn reset_row(a: AccountRow, server: u64, amount: u64) -> AccountRow {
    if a.server == server {
        AccountRow { server: a.server, user: a.user, balance: amount }
    } else {
        a
    }
}

/// The account takes part in a distribution of income: all accounts, or those
/// of one server.
pub open spec fn targeted(a: AccountRow, only: Option<u64>) -> bool {
    match only {
        None => true,
        Some(s) => a.server == s,
    }
}

/// An account row after `income` coins were handed out.
pub open spec fn income_row(a: AccountRow, only: Option<u64>, income: u64) -> AccountRow {
    if targeted(a, only) {
        AccountRow { server: a.server, user: a.user, balance: (a.balance + income) as u64 }
    } else {
        a
    }
}

/// Some targeted balance would not fit in 64 bits after the income.
pub open spec fn income_overflows(accs: Seq<AccountRow>, only: Option<u64>, income: u64) -> bool {
    exists|k: int| 0 <= k < accs.len() && targeted(#[trigger] accs[k], only) && accs[k].balance + income > u64::MAX
}

/// The updates of an income distribution, one per targeted account, in order.
pub open spec fn income_updates(accs: Seq<AccountRow>, only: Option<u64>, income: u64) -> Seq<AccountUpdate>
    decreases accs.len(),
{
    if accs.len() == 0 {
        Seq::empty()
    } else {
        let rest = income_updates(accs.drop_last(), only, income);
        let a = accs.last();
        if targeted(a, only) {
            rest.push(
                AccountUpdate {
                    server: a.server,
                    user: a.user,
                    diff: income as i128,
                    balance: (a.balance + income) as u64,
                },
            )
        } else {
            rest
        }
    }
}

/// What `user` on `server` has at stake on bets that are not tombstoned.
pub open spec fn stake_in(ws: Seq<WagerRow>, tomb: Seq<u64>, server: u64, user: u64) -> int
    decreases ws.len(),
{
    if ws.len() == 0 {
        0
    } else {
        let w = ws.last();
        stake_in(ws.drop_last(), tomb, server, user) + if w.server == server && w.user == user
            && !tomb.contains(w.bet) {
            w.amount as int
        } else {
            0
        }
    }
}

/// The status of each account of `server`, in order; what is at stake is capped
/// at `u64::MAX`.
pub open spec fn statuses(accs: Seq<AccountRow>, ws: Seq<WagerRow>, tomb: Seq<u64>, server: u64) -> Seq<
    (u64, u64, u64),
>
    decreases accs.len(),
{
    if accs.len() == 0 {
        Seq::empty()
    } else {
        let rest = statuses(accs.drop_last(), ws, tomb, server);
        let a = accs.last();
        if a.server == server {
            let s = stake_in(ws, tomb, server, a.user);
            rest.push((a.user, a.balance, if s > u64::MAX { u64::MAX } else { s as u64 }))
        } else {
            rest
        }
    }
}

pub(crate) proof fn lemma_stake_in_bound(ws: Seq<WagerRow>, tomb: Seq<u64>, server: u64, user: u64)
    ensures
        0 <= stake_in(ws, tomb, server, user) <= ws.len() * 0xffff_ffff_ffff_ffffint,
    decreases ws.len(),
{
    if ws.len() > 0 {
        lemma_stake_in_bound(ws.drop_last(), tomb, server, user);
        let x = stake_in(ws, tomb, server, user);
        let y = stake_in(ws.drop_last(), tomb, server, user);
        assert(x <= ws.len() * 0xffff_ffff_ffff_ffffint) by (nonlinear_arith)
            requires
                x <= y + 0xffff_ffff_ffff_ffffint,
                y <= (ws.len() - 1) * 0xffff_ffff_ffff_ffffint,
        ;
    }
}

/// Keeps the bet rows for which `keep` holds, in order.
pub(crate) fn retain_bets(bets: &mut Vec<BetRow>, keep: &Vec<bool>, Ghost(pred): Ghost<spec_fn(BetRow) -> bool>)
    requires
        keep@.len() == old(bets)@.len(),
        forall|k: int| 0 <= k < keep@.len() ==> keep@[k] == pred(#[trigger] old(bets)@[k]),
    ensures
        final(bets)@ == old(bets)@.filter(pred),
{
    let ghost orig = bets@;
    let n = bets.len();
    let mut i: usize = n;
    while i > 0
        invariant
            n == orig.len(),
            keep@.len() == n,
            forall|k: int| 0 <= k < n ==> keep@[k] == pred(#[trigger] orig[k]),
            0 <= i <= n,
            bets@ == orig.subrange(0, i as int) + orig.subrange(i as int, n as int).filter(pred),
        decreases i,
    {
        i = i - 1;
        let ghost tail = orig.subrange(i as int + 1, n as int);
        proof {
            assert(orig.subrange(i as int, n as int) =~= seq![orig[i as int]] + tail);
            Seq::filter_distributes_over_add(seq![orig[i as int]], tail, pred);
            assert(seq![orig[i as int]].drop_last() =~= Seq::<BetRow>::empty());
            assert(keep@[i as int] == pred(orig[i as int]));
            assert(orig.subrange(0, i as int + 1) =~= orig.subrange(0, i as int).push(orig[i as int]));
        }
        if !keep[i] {
            bets.remove(i);
        }
        proof {
            let x = orig[i as int];
            assert(orig.subrange(i as int, n as int).filter(pred) == seq![x].filter(pred) + tail.filter(pred));
            assert(seq![x].drop_last() =~= Seq::<BetRow>::empty());
            assert(seq![x].last() == x);
            reveal_with_fuel(Seq::<BetRow>::filter, 2);
            if pred(x) {
                assert(seq![x].filter(pred) =~= Seq::<BetRow>::empty().filter(pred).push(x));
                assert(orig.subrange(i as int, n as int).filter(pred) =~= seq![x] + tail.filter(pred));
            } else {
                assert(seq![x].filter(pred) =~= Seq::<BetRow>::empty().filter(pred));
                assert(orig.subrange(i as int, n as int).filter(pred) =~= tail.filter(pred));
            }
            assert(bets@ =~= orig.subrange(0, i as int) + orig.subrange(i as int, n as int).filter(pred));
        }
    }
    assert(orig.subrange(i as int, n as int) =~= orig);
    assert(bets@ =~= orig.subrange(i as int, n as int).filter(pred));
}

/// The rows of `v` for which `keep` holds, in order.
pub(crate) fn kept<T: Copy>(v: &Vec<T>, keep: &Vec<bool>, Ghost(pred): Ghost<spec_fn(T) -> bool>) -> (r: Vec<T>)
    requires
        keep@.len() == v@.len(),
        forall|k: int| 0 <= k < keep@.len() ==> keep@[k] == pred(#[trigger] v@[k]),
    ensures
        r@ == v@.filter(pred),
{
    let mut out: Vec<T> = Vec::new();
    let mut i: usize = 0;
    while i < v.len()
        invariant
            keep@.len() == v@.len(),
            forall|k: int| 0 <= k < keep@.len() ==> keep@[k] == pred(#[trigger] v@[k]),
            0 <= i <= v@.len(),
            out@ == v@.subrange(0, i as int).filter(pred),
        decreases v@.len() - i,
    {
        proof {
            assert(v@.subrange(0, i + 1).drop_last() =~= v@.subrange(0, i as int));
            assert(v@.subrange(0, i + 1).last() == v@[i as int]);
            reveal_with_fuel(Seq::filter, 1);
        }
        if keep[i] {
            out.push(v[i]);
        }
        i = i + 1;
    }
    assert(v@.subrange(0, v@.len() as int) =~= v@);
    out
}

/// Keeping some of the rows keeps the ids unique.
pub(crate) proof fn lemma_filter_unique(bets: Seq<BetRow>, pred: spec_fn(BetRow) -> bool)
    requires
        bets_unique(bets),
    ensures
        bets_unique(bets.filter(pred)),
    decreases bets.len(),
{
    reveal_with_fuel(Seq::<BetRow>::filter, 1);
    if bets.len() > 0 {
        let rest = bets.drop_last();
        assert(bets_unique(rest)) by {
            assert forall|i: int, j: int| 0 <= i < j < rest.len() implies #[trigger] rest[i].uuid
                != #[trigger] rest[j].uuid by {
                assert(bets[i].uuid != bets[j].uuid);
            }
        }
        lemma_filter_unique(rest, pred);
        if pred(bets.last()) {
            let f = rest.filter(pred);
            assert forall|k: int| 0 <= k < f.len() implies #[trigger] f[k].uuid != bets.last().uuid by {
                assert(f.contains(f[k]));
                rest.lemma_filter_contains_rev(pred, f[k]);
                let j = choose|j: int| 0 <= j < rest.len() && rest[j] == f[k];
                assert(bets[j] == rest[j]);
                assert(bets[j].uuid != bets[bets.len() - 1].uuid);
            }
            let g = f.push(bets.last());
            assert forall|i: int, j: int| 0 <= i < j < g.len() implies #[trigger] g[i].uuid
                != #[trigger] g[j].uuid by {
                if j == g.len() - 1 {
                    assert(g[i] == f[i]);
                } else {
                    assert(g[i] == f[i] && g[j] == f[j]);
                }
            }
        }
    }
}

/// Bet rows that a reset of `server` keeps.
pub open spec fn bet_kept(server: u64) -> spec_fn(BetRow) -> bool {
    |b: BetRow| b.server != server
}

/// Wager rows that a reset of `server` keeps.
pub open spec fn wager_kept(bets: Seq<BetRow>, server: u64) -> spec_fn(WagerRow) -> bool {
    |w: WagerRow| !on_server(bets, w.bet, server)
}

/// Tombstones that a reset of `server` keeps.
pub open spec fn id_kept(bets: Seq<BetRow>, server: u64) -> spec_fn(u64) -> bool {
    |id: u64| !on_server(bets, id, server)
}

/// Bet rows that survive a purge of the tombstones `tomb`.
pub open spec fn bet_survives(tomb: Seq<u64>) -> spec_fn(BetRow) -> bool {
    |b: BetRow| !tomb.contains(b.uuid)
}

/// Wager rows that survive a purge of the tombstones `tomb`.
pub open spec fn wager_survives(tomb: Seq<u64>) -> spec_fn(WagerRow) -> bool {
    |w: WagerRow| !tomb.contains(w.bet)
}

pub(crate) fn contains_id(ids: &Vec<u64>, x: u64) -> (r: bool)
    ensures
        r == ids@.contains(x),
{
    let mut i: usize = 0;
    while i < ids.len()
        invariant
            0 <= i <= ids@.len(),
            forall|k: int| 0 <= k < i ==> ids@[k] != x,
        decreases ids@.len() - i,
    {
        if ids[i] == x {
            return true;
        }
        i = i + 1;
    }
    false
}

pub(crate) fn copy_str(s: &str) -> (r: String)
    ensures
        r@ == s@,
{
    s.to_owned()
}

} // verus!
