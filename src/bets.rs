//! The ledger engine: accounts, bets and their lifecycle (open, locked,
//! tombstoned), staking, resolution and abort.

use vstd::prelude::*;
use crate::amount::Amount;
use crate::payout::{lemma_seq_sum_all_zero, lemma_seq_sum_nonneg, lrm, lrm_payout, seq_sum};
use crate::credit::{credit, credit_all, change_balance, credit_each, lemma_credit_all_keys, lemma_credit_keys, zip_credits, diff_sum, lemma_updates_follow_credits, lemma_zip_credits_sum};
use crate::rows::{account_index, bet_index, wager_index, wagers_on, wagers_of_bet, pair_sum, find_account, find_bet, find_wager, locked, accounts_unique, bets_unique, wagers_unique, lemma_filter_wagers_unique, lemma_wager_index_absent, same_keys, lemma_same_keys_unique, lemma_bet_index_absent, lemma_account_index_absent, topped_up, lemma_pair_sum_bound, on_server, reset_row, targeted, income_row, income_overflows, income_updates, stake_in, statuses, lemma_stake_in_bound, retain_bets, kept, lemma_filter_unique, bet_kept, wager_kept, id_kept, bet_survives, wager_survives, contains_id, copy_str};
use crate::structs::{AccountRow, AccountStatus, AccountUpdate, Bet, BetError, BetInfo, BetRow, Outcome, WagerRow};

verus! {

/// The ledger: accounts, bets with their outcomes, wagers, and the set of bets
/// marked for deletion (tombstones).
pub struct Bets {
    accounts: Vec<AccountRow>,
    bets: Vec<BetRow>,
    wagers: Vec<WagerRow>,
    to_delete: Vec<u64>,
}

impl Bets {
    /// The account rows.
    pub closed spec fn accounts_v(&self) -> Seq<AccountRow> {
        self.accounts@
    }

    /// The bet rows, tombstoned ones included until they are purged.
    pub closed spec fn bets_v(&self) -> Seq<BetRow> {
        self.bets@
    }

    /// The wager rows.
    pub closed spec fn wagers_v(&self) -> Seq<WagerRow> {
        self.wagers@
    }

    /// The ids of the bets marked for deletion.
    pub closed spec fn tombstones(&self) -> Seq<u64> {
        self.to_delete@
    }

    /// Holds the same rows as `other`.
    pub open spec fn same_as(&self, other: Bets) -> bool {
        &&& self.accounts_v() == other.accounts_v()
        &&& self.bets_v() == other.bets_v()
        &&& self.wagers_v() == other.wagers_v()
        &&& self.tombstones() == other.tombstones()
    }

    /// The bet exists and is not tombstoned.
    pub open spec fn is_live(&self, bet: u64) -> bool {
        bet_index(self.bets_v(), bet) >= 0 && !self.tombstones().contains(bet)
    }

    /// The row of a bet that exists.
    pub open spec fn bet_row(&self, bet: u64) -> BetRow {
        self.bets_v()[bet_index(self.bets_v(), bet)]
    }

    /// Keys are unique: one account per `(server, user)`, one bet per id, and
    /// one wager per user and bet.
    pub open spec fn wf(&self) -> bool {
        accounts_unique(self.accounts_v()) && bets_unique(self.bets_v()) && wagers_unique(
            self.wagers_v(),
        )
    }

    /// The account rows, in order.
    pub fn account_rows(&self) -> (r: &Vec<AccountRow>)
        ensures
            r@ == self.accounts_v(),
    {
        &self.accounts
    }

    /// The bet rows, in order.
    pub fn bet_rows(&self) -> (r: &Vec<BetRow>)
        ensures
            r@ == self.bets_v(),
    {
        &self.bets
    }

    /// The wager rows, in order.
    pub fn wager_rows(&self) -> (r: &Vec<WagerRow>)
        ensures
            r@ == self.wagers_v(),
    {
        &self.wagers
    }

    /// The ids of the tombstoned bets.
    pub fn tombstone_ids(&self) -> (r: &Vec<u64>)
        ensures
            r@ == self.tombstones(),
    {
        &self.to_delete
    }

    /// A ledger made of rows that were stored before. Fails with
    /// `AlreadyExists` if two accounts share a key, two bets an id, or two
    /// wagers a user and a bet.
    pub fn restore(
        accounts: Vec<AccountRow>,
        bets: Vec<BetRow>,
        wagers: Vec<WagerRow>,
        tombstones: Vec<u64>,
    ) -> (r: Result<Bets, BetError>)
        ensures
            !(accounts_unique(accounts@) && bets_unique(bets@) && wagers_unique(wagers@)) ==> r
                == Err::<Bets, BetError>(BetError::AlreadyExists),
            accounts_unique(accounts@) && bets_unique(bets@) && wagers_unique(wagers@) ==> (r matches Ok(b) && b.wf()
                && b.accounts_v() == accounts@ && b.bets_v() == bets@ && b.wagers_v() == wagers@
                && b.tombstones() == tombstones@),
    {
        let mut i: usize = 0;
        while i < accounts.len()
            invariant
                0 <= i <= accounts@.len(),
                forall|a: int, b: int|
                    0 <= a < b < accounts@.len() && a < i ==> !(#[trigger] accounts@[a].server
                        == #[trigger] accounts@[b].server && accounts@[a].user == accounts@[b].user),
            decreases accounts@.len() - i,
        {
            let mut j: usize = i + 1;
            while j < accounts.len()
                invariant
                    0 <= i < j <= accounts@.len(),
                    forall|a: int, b: int|
                        0 <= a < b < accounts@.len() && a < i ==> !(#[trigger] accounts@[a].server
                            == #[trigger] accounts@[b].server && accounts@[a].user == accounts@[b].user),
                    forall|b: int|
                        i < b < j ==> !(accounts@[i as int].server == #[trigger] accounts@[b].server
                            && accounts@[i as int].user == accounts@[b].user),
                decreases accounts@.len() - j,
            {
                if accounts[i].server == accounts[j].server && accounts[i].user == accounts[j].user {
                    return Err(BetError::AlreadyExists);
                }
                j = j + 1;
            }
            i = i + 1;
        }
        let mut i: usize = 0;
        while i < bets.len()
            invariant
                accounts_unique(accounts@),
                0 <= i <= bets@.len(),
                forall|a: int, b: int|
                    0 <= a < b < bets@.len() && a < i ==> #[trigger] bets@[a].uuid != #[trigger] bets@[b].uuid,
            decreases bets@.len() - i,
        {
            let mut j: usize = i + 1;
            while j < bets.len()
                invariant
                    0 <= i < j <= bets@.len(),
                    forall|a: int, b: int|
                        0 <= a < b < bets@.len() && a < i ==> #[trigger] bets@[a].uuid != #[trigger] bets@[b].uuid,
                    forall|b: int| i < b < j ==> bets@[i as int].uuid != #[trigger] bets@[b].uuid,
                decreases bets@.len() - j,
            {
                if bets[i].uuid == bets[j].uuid {
                    return Err(BetError::AlreadyExists);
                }
                j = j + 1;
            }
            i = i + 1;
        }
        let mut i: usize = 0;
        while i < wagers.len()
            invariant
                accounts_unique(accounts@),
                bets_unique(bets@),
                0 <= i <= wagers@.len(),
                forall|a: int, b: int|
                    0 <= a < b < wagers@.len() && a < i ==> !(#[trigger] wagers@[a].bet
                        == #[trigger] wagers@[b].bet && wagers@[a].user == wagers@[b].user),
            decreases wagers@.len() - i,
        {
            let mut j: usize = i + 1;
            while j < wagers.len()
                invariant
                    0 <= i < j <= wagers@.len(),
                    forall|a: int, b: int|
                        0 <= a < b < wagers@.len() && a < i ==> !(#[trigger] wagers@[a].bet
                            == #[trigger] wagers@[b].bet && wagers@[a].user == wagers@[b].user),
                    forall|b: int|
                        i < b < j ==> !(wagers@[i as int].bet == #[trigger] wagers@[b].bet
                            && wagers@[i as int].user == wagers@[b].user),
                decreases wagers@.len() - j,
            {
                if wagers[i].bet == wagers[j].bet && wagers[i].user == wagers[j].user {
                    return Err(BetError::AlreadyExists);
                }
                j = j + 1;
            }
            i = i + 1;
        }
        Ok(Bets { accounts, bets, wagers, to_delete: tombstones })
    }

    /// An empty ledger.
    pub fn new() -> (r: Bets)
        ensures
            r.wf(),
            r.accounts_v() == Seq::<AccountRow>::empty(),
            r.bets_v() == Seq::<BetRow>::empty(),
            r.wagers_v() == Seq::<WagerRow>::empty(),
            r.tombstones() == Seq::<u64>::empty(),
    {
        Bets { accounts: Vec::new(), bets: Vec::new(), wagers: Vec::new(), to_delete: Vec::new() }
    }

    /// Opens an account for `user` on `server` with `amount` coins.
    pub fn create_account(&mut self, server: u64, user: u64, amount: u64) -> (r: Result<
        (),
        BetError,
    >)
        requires
            old(self).wf(),
        ensures
            final(self).wf(),
            account_index(old(self).accounts_v(), server, user) >= 0 ==> r == Err::<(), BetError>(
                BetError::AlreadyExists,
            ) && final(self).accounts_v() == old(self).accounts_v(),
            account_index(old(self).accounts_v(), server, user) < 0 ==> r == Ok::<(), BetError>(())
                && final(self).accounts_v() == old(self).accounts_v().push(
                (AccountRow { server, user, balance: amount }),
            ),
            final(self).bets_v() == old(self).bets_v(),
            final(self).wagers_v() == old(self).wagers_v(),
            final(self).tombstones() == old(self).tombstones(),
    {
        if find_account(&self.accounts, server, user).is_some() {
            return Err(BetError::AlreadyExists);
        }
        proof {
            lemma_account_index_absent(self.accounts@, server, user);
        }
        self.accounts.push(AccountRow { server, user, balance: amount });
        Ok(())
    }

    /// The balance of `user` on `server`.
    pub fn balance(&self, server: u64, user: u64) -> (r: Result<u64, BetError>)
        ensures
            account_index(self.accounts_v(), server, user) < 0 ==> r == Err::<u64, BetError>(
                BetError::NotFound,
            ),
            account_index(self.accounts_v(), server, user) >= 0 ==> r == Ok::<u64, BetError>(
                self.accounts_v()[account_index(self.accounts_v(), server, user)].balance,
            ),
    {
        match find_account(&self.accounts, server, user) {
            None => Err(BetError::NotFound),
            Some(i) => Ok(self.accounts[i].balance),
        }
    }

    /// Fails with `NotFound` if the bet is tombstoned.
    pub fn assert_bet_not_deleted(&self, bet: u64) -> (r: Result<(), BetError>)
        ensures
            self.tombstones().contains(bet) ==> r == Err::<(), BetError>(BetError::NotFound),
            !self.tombstones().contains(bet) ==> r == Ok::<(), BetError>(()),
    {
        if contains_id(&self.to_delete, bet) {
            Err(BetError::NotFound)
        } else {
            Ok(())
        }
    }

    /// Index of a live bet, or `NotFound`.
    fn live_bet(&self, bet: u64) -> (r: Result<usize, BetError>)
        ensures
            !self.is_live(bet) ==> r == Err::<usize, BetError>(BetError::NotFound),
            self.is_live(bet) ==> (r matches Ok(i) && i == bet_index(self.bets_v(), bet)),
            r matches Ok(i) ==> i < self.bets_v().len(),
    {
        self.assert_bet_not_deleted(bet)?;
        match find_bet(&self.bets, bet) {
            None => Err(BetError::NotFound),
            Some(i) => Ok(i),
        }
    }

    /// The description, server, author and state of a live bet.
    pub fn bet_info(&self, bet: u64) -> (r: Result<BetInfo, BetError>)
        ensures
            !self.is_live(bet) ==> r == Err::<BetInfo, BetError>(BetError::NotFound),
            self.is_live(bet) ==> (r matches Ok(info) && info.desc@ == self.bet_row(bet).desc@
                && info.server == self.bet_row(bet).server && info.author == self.bet_row(bet).author
                && info.is_open == self.bet_row(bet).is_open),
    {
        let i = self.live_bet(bet)?;
        let row = &self.bets[i];
        Ok(BetInfo { desc: row.desc.clone(), server: row.server, author: row.author, is_open: row.is_open })
    }

    /// The numbers of the outcomes of a live bet: `0, 1, ..., n - 1`.
    pub fn outcomes_of_bet(&self, bet: u64) -> (r: Result<Vec<u64>, BetError>)
        ensures
            !self.is_live(bet) ==> r == Err::<Vec<u64>, BetError>(BetError::NotFound),
            self.is_live(bet) ==> (r matches Ok(v) && v@.len() == self.bet_row(bet).outcomes@.len()
                && forall|k: int| 0 <= k < v@.len() ==> v@[k] == k),
    {
        let i = self.live_bet(bet)?;
        let n = self.bets[i].outcomes.len();
        let mut v: Vec<u64> = Vec::new();
        let mut k: usize = 0;
        while k < n
            invariant
                0 <= k <= n,
                v@.len() == k,
                forall|m: int| 0 <= m < k ==> v@[m] == m,
            decreases n - k,
        {
            v.push(k as u64);
            k = k + 1;
        }
        Ok(v)
    }

    /// `outs` lists every outcome of the live bet `bet`, in order, with its
    /// description and its wagers.
    pub open spec fn outcomes_match(&self, bet: u64, outs: Seq<Outcome>) -> bool {
        &&& outs.len() == self.bet_row(bet).outcomes@.len()
        &&& forall|o: int|
            0 <= o < outs.len() ==> (#[trigger] outs[o]).desc@ == self.bet_row(bet).outcomes@[o]@
                && outs[o].wagers@ == wagers_on(self.wagers_v(), bet, o)
    }

    /// What staking `amount` on `outcome` of `bet` for `user` comes to: the
    /// number of coins to move, or the error, checked in this order: the bet is
    /// live, open, has that outcome, the user has an account on its server, holds
    /// no wager on another outcome of it, the amount resolves on the balance, and
    /// the wager can take it.
    pub open spec fn stake_check(&self, bet: u64, outcome: usize, user: u64, amount: Amount) -> Result<
        u64,
        BetError,
    > {
        let row = self.bet_row(bet);
        let ai = account_index(self.accounts_v(), row.server, user);
        let wi = wager_index(self.wagers_v(), bet, user);
        if !self.is_live(bet) {
            Err(BetError::NotFound)
        } else if !row.is_open {
            Err(BetError::BetLocked)
        } else if outcome >= row.outcomes@.len() {
            Err(BetError::NotFound)
        } else if ai < 0 {
            Err(BetError::NotFound)
        } else if wi >= 0 && self.wagers_v()[wi].outcome != outcome {
            Err(BetError::MultiOpt(self.wagers_v()[wi].outcome))
        } else {
            match amount.resolved(self.accounts_v()[ai].balance) {
                Err(e) => Err(e),
                Ok(s) => if wi >= 0 && self.wagers_v()[wi].amount + s > u64::MAX {
                    Err(BetError::InternalError)
                } else {
                    Ok(s)
                },
            }
        }
    }

    fn wagers_of(&self, bet: u64, outcome: usize) -> (r: Vec<(u64, u64)>)
        ensures
            r@ == wagers_on(self.wagers_v(), bet, outcome as int),
    {
        let mut v: Vec<(u64, u64)> = Vec::new();
        let mut i: usize = 0;
        while i < self.wagers.len()
            invariant
                0 <= i <= self.wagers@.len(),
                v@ == wagers_on(self.wagers@.subrange(0, i as int), bet, outcome as int),
            decreases self.wagers@.len() - i,
        {
            assert(self.wagers@.subrange(0, i + 1).drop_last() =~= self.wagers@.subrange(0, i as int));
            let w = self.wagers[i];
            if w.bet == bet && w.outcome == outcome {
                v.push((w.user, w.amount));
            }
            i = i + 1;
        }
        assert(self.wagers@.subrange(0, self.wagers@.len() as int) =~= self.wagers@);
        v
    }

    /// One outcome of a live bet, with its description and wagers.
    pub fn outcome_status(&self, bet: u64, outcome: u64) -> (r: Result<Outcome, BetError>)
        ensures
            !self.is_live(bet) || outcome >= self.bet_row(bet).outcomes@.len() ==> r == Err::<
                Outcome,
                BetError,
            >(BetError::NotFound),
            self.is_live(bet) && outcome < self.bet_row(bet).outcomes@.len() ==> (r matches Ok(o)
                && o.desc@ == self.bet_row(bet).outcomes@[outcome as int]@ && o.wagers@ == wagers_on(
                self.wagers_v(),
                bet,
                outcome as int,
            )),
    {
        let i = self.live_bet(bet)?;
        if outcome >= self.bets[i].outcomes.len() as u64 {
            return Err(BetError::NotFound);
        }
        let o = outcome as usize;
        let desc = self.bets[i].outcomes[o].clone();
        Ok(Outcome { desc, wagers: self.wagers_of(bet, o) })
    }

    /// Every outcome of a live bet, in order, with its description and wagers.
    pub fn outcomes_statuses(&self, bet: u64) -> (r: Result<Vec<Outcome>, BetError>)
        ensures
            !self.is_live(bet) ==> r == Err::<Vec<Outcome>, BetError>(BetError::NotFound),
            self.is_live(bet) ==> (r matches Ok(v) && self.outcomes_match(bet, v@)),
    {
        let i = self.live_bet(bet)?;
        let n = self.bets[i].outcomes.len();
        let mut outs: Vec<Outcome> = Vec::new();
        let mut o: usize = 0;
        while o < n
            invariant
                i == bet_index(self.bets_v(), bet),
                0 <= i < self.bets_v().len(),
                n == self.bet_row(bet).outcomes@.len(),
                0 <= o <= n,
                outs@.len() == o,
                forall|k: int|
                    0 <= k < o ==> (#[trigger] outs@[k]).desc@ == self.bet_row(bet).outcomes@[k]@
                        && outs@[k].wagers@ == wagers_on(self.wagers_v(), bet, k),
            decreases n - o,
        {
            let desc = self.bets[i].outcomes[o].clone();
            outs.push(Outcome { desc, wagers: self.wagers_of(bet, o) });
            o = o + 1;
        }
        Ok(outs)
    }

    /// Opens a bet `bet_uuid` on `server` with one outcome per description, in
    /// order. The bet takes stakes until it is locked.
    pub fn create_bet(&mut self, bet_uuid: u64, server: u64, desc: &str, outcomes: &[&str]) -> (r:
        Result<(), BetError>)
        requires
            old(self).wf(),
        ensures
            final(self).wf(),
            bet_index(old(self).bets_v(), bet_uuid) >= 0 ==> r == Err::<(), BetError>(
                BetError::AlreadyExists,
            ) && final(self).same_as(*old(self)),
            bet_index(old(self).bets_v(), bet_uuid) < 0 ==> {
                &&& r == Ok::<(), BetError>(())
                &&& final(self).bets_v().len() == old(self).bets_v().len() + 1
                &&& final(self).bets_v().drop_last() == old(self).bets_v()
                &&& final(self).bets_v().last().uuid == bet_uuid
                &&& final(self).bets_v().last().server == server
                &&& final(self).bets_v().last().author is None
                &&& final(self).bets_v().last().desc@ == desc@
                &&& final(self).bets_v().last().is_open
                &&& final(self).bets_v().last().outcomes@.len() == outcomes@.len()
                &&& forall|k: int|
                    0 <= k < outcomes@.len() ==> #[trigger] final(self).bets_v().last().outcomes@[k]@
                        == outcomes@[k]@
            },
            final(self).accounts_v() == old(self).accounts_v(),
            final(self).wagers_v() == old(self).wagers_v(),
            final(self).tombstones() == old(self).tombstones(),
    {
        if find_bet(&self.bets, bet_uuid).is_some() {
            return Err(BetError::AlreadyExists);
        }
        let mut outs: Vec<String> = Vec::new();
        let mut k: usize = 0;
        while k < outcomes.len()
            invariant
                0 <= k <= outcomes@.len(),
                outs@.len() == k,
                forall|m: int| 0 <= m < k ==> #[trigger] outs@[m]@ == outcomes@[m]@,
            decreases outcomes@.len() - k,
        {
            outs.push(copy_str(outcomes[k]));
            k = k + 1;
        }
        proof {
            lemma_bet_index_absent(self.bets@, bet_uuid);
        }
        let ghost before = self.bets@;
        self.bets.push(
            BetRow {
                uuid: bet_uuid,
                server,
                author: None,
                desc: copy_str(desc),
                is_open: true,
                outcomes: outs,
            },
        );
        assert(self.bets@.drop_last() =~= before);
        assert forall|a: int, b: int| 0 <= a < b < self.bets@.len() implies #[trigger] self.bets@[a].uuid
            != #[trigger] self.bets@[b].uuid by {
            if b < before.len() {
                assert(before[a].uuid != before[b].uuid);
            } else {
                assert(before[a].uuid != bet_uuid);
            }
        }
        Ok(())
    }

    /// Stakes `amount` for `user` on `outcome` of `bet`, as `stake_check` says:
    /// the coins leave the account and go to the user's wager on that outcome,
    /// made at zero first if there was none. Returns the account's update and
    /// the bet as it then stands. On any error nothing changes.
    pub fn bet_on(&mut self, bet: u64, outcome: usize, user: u64, amount: Amount) -> (r: Result<
        (AccountUpdate, Bet),
        BetError,
    >)
        requires
            old(self).wf(),
        ensures
            final(self).wf(),
            match old(self).stake_check(bet, outcome, user, amount) {
                Err(e) => r == Err::<(AccountUpdate, Bet), BetError>(e) && final(self).same_as(*old(self)),
                Ok(s) => {
                    let row = old(self).bet_row(bet);
                    let ai = account_index(old(self).accounts_v(), row.server, user);
                    let wi = wager_index(old(self).wagers_v(), bet, user);
                    let nb = (old(self).accounts_v()[ai].balance - s) as u64;
                    &&& r matches Ok((u, snap))
                    &&& u == AccountUpdate { server: row.server, user, diff: (-s) as i128, balance: nb }
                    &&& final(self).accounts_v() == old(self).accounts_v().update(
                        ai,
                        AccountRow { server: row.server, user, balance: nb },
                    )
                    &&& wi >= 0 ==> final(self).wagers_v() == old(self).wagers_v().update(
                        wi,
                        topped_up(old(self).wagers_v()[wi], s),
                    )
                    &&& wi < 0 ==> final(self).wagers_v() == old(self).wagers_v().push(
                        WagerRow { bet, outcome, server: row.server, user, amount: s },
                    )
                    &&& final(self).bets_v() == old(self).bets_v()
                    &&& final(self).tombstones() == old(self).tombstones()
                    &&& snap.bet == bet && snap.server == row.server && snap.author == row.author
                    &&& snap.desc@ == row.desc@ && snap.is_open == row.is_open
                    &&& final(self).outcomes_match(bet, snap.outcomes@)
                },
            },
    {
        let i = self.live_bet(bet)?;
        if !self.bets[i].is_open {
            return Err(BetError::BetLocked);
        }
        if outcome >= self.bets[i].outcomes.len() {
            return Err(BetError::NotFound);
        }
        let server = self.bets[i].server;
        let ai = match find_account(&self.accounts, server, user) {
            None => {
                return Err(BetError::NotFound);
            },
            Some(ai) => ai,
        };
        let wi = find_wager(&self.wagers, bet, user);
        if let Some(w) = wi {
            if self.wagers[w].outcome != outcome {
                return Err(BetError::MultiOpt(self.wagers[w].outcome));
            }
        }
        let balance = self.accounts[ai].balance;
        let stake = amount.resolve(balance)?;
        if let Some(w) = wi {
            if self.wagers[w].amount > 0xffff_ffff_ffff_ffff - stake {
                return Err(BetError::InternalError);
            }
        }
        let ghost accs0 = self.accounts@;
        let update = match change_balance(&mut self.accounts, server, user, -(stake as i128)) {
            Ok(u) => u,
            Err(e) => {
                return Err(e);
            },
        };
        proof {
            lemma_credit_keys(accs0, server, user, -(stake as int));
            lemma_same_keys_unique(accs0, self.accounts@);
        }
        let ghost ws0 = self.wagers@;
        match wi {
            Some(w) => {
                let old_w = self.wagers[w];
                self.wagers.set(
                    w,
                    WagerRow {
                        bet: old_w.bet,
                        outcome: old_w.outcome,
                        server: old_w.server,
                        user: old_w.user,
                        amount: old_w.amount + stake,
                    },
                );
            },
            None => {
                proof {
                    lemma_wager_index_absent(ws0, bet, user);
                }
                self.wagers.push(WagerRow { bet, outcome, server, user, amount: stake });
            },
        }
        assert forall|a: int, b: int| 0 <= a < b < self.wagers@.len() implies !(
        #[trigger] self.wagers@[a].bet == #[trigger] self.wagers@[b].bet && self.wagers@[a].user
            == self.wagers@[b].user) by {
            if b < ws0.len() {
                assert(!(ws0[a].bet == ws0[b].bet && ws0[a].user == ws0[b].user));
            } else {
                assert(!(ws0[a].bet == bet && ws0[a].user == user));
            }
        }
        let outs = match self.outcomes_statuses(bet) {
            Ok(v) => v,
            Err(e) => {
                return Err(e);
            },
        };
        let snap = Bet {
            bet,
            server,
            author: self.bets[i].author,
            desc: self.bets[i].desc.clone(),
            outcomes: outs,
            is_open: self.bets[i].is_open,
        };
        Ok((update, snap))
    }

    /// Every `(user, amount)` staked on a bet, outcome by outcome.
    pub open spec fn all_wagers(&self, bet: u64) -> Seq<(u64, u64)> {
        wagers_of_bet(self.wagers_v(), bet, self.bet_row(bet).outcomes@.len() as int)
    }

    /// The pool of a bet: everything staked on any of its outcomes.
    pub open spec fn pool(&self, bet: u64) -> int {
        pair_sum(self.all_wagers(bet))
    }

    /// What resolving `bet` with `winning` pays: each winner, in order, gets
    /// their largest-remainder part of the whole pool.
    pub open spec fn resolve_credits(&self, bet: u64, winning: usize) -> Seq<(u64, u64)> {
        let w = wagers_on(self.wagers_v(), bet, winning as int);
        zip_credits(w, lrm_payout(self.pool(bet) as u64, w.map_values(|x: (u64, u64)| x.1)))
    }

    fn collect_wagers(&self, bet: u64, i: usize) -> (r: Vec<(u64, u64)>)
        requires
            i == bet_index(self.bets_v(), bet),
            0 <= i < self.bets_v().len(),
        ensures
            r@ == self.all_wagers(bet),
    {
        let n = self.bets[i].outcomes.len();
        let mut all: Vec<(u64, u64)> = Vec::new();
        let mut o: usize = 0;
        while o < n
            invariant
                n == self.bet_row(bet).outcomes@.len(),
                0 <= o <= n,
                all@ == wagers_of_bet(self.wagers_v(), bet, o as int),
            decreases n - o,
        {
            let mut more = self.wagers_of(bet, o);
            all.append(&mut more);
            o = o + 1;
        }
        all
    }

    /// Marks a bet for deletion.
    fn delete_bet(&mut self, bet: u64)
        ensures
            final(self).tombstones() == old(self).tombstones().push(bet),
            final(self).accounts_v() == old(self).accounts_v(),
            final(self).bets_v() == old(self).bets_v(),
            final(self).wagers_v() == old(self).wagers_v(),
    {
        self.to_delete.push(bet);
    }

    /// Refunds every wager of a live bet to its user and tombstones the bet.
    /// Returns one update per wager, outcome by outcome. On any error nothing
    /// changes.
    pub fn abort_bet(&mut self, bet: u64) -> (r: Result<Vec<AccountUpdate>, BetError>)
        requires
            old(self).wf(),
        ensures
            final(self).wf(),
            !old(self).is_live(bet) ==> r == Err::<Vec<AccountUpdate>, BetError>(BetError::NotFound)
                && final(self).same_as(*old(self)),
            old(self).is_live(bet) ==> match credit_all(
                old(self).accounts_v(),
                old(self).bet_row(bet).server,
                old(self).all_wagers(bet),
            ) {
                Err(e) => r == Err::<Vec<AccountUpdate>, BetError>(e) && final(self).same_as(*old(self)),
                Ok((a, us)) => {
                    &&& r matches Ok(v) && v@ == us
                    &&& final(self).accounts_v() == a
                    &&& final(self).tombstones() == old(self).tombstones().push(bet)
                    &&& final(self).bets_v() == old(self).bets_v()
                    &&& final(self).wagers_v() == old(self).wagers_v()
                },
            },
    {
        let i = self.live_bet(bet)?;
        let server = self.bets[i].server;
        let all = self.collect_wagers(bet, i);
        let ghost accs0 = self.accounts@;
        let ups = credit_each(&mut self.accounts, server, &all)?;
        proof {
            lemma_credit_all_keys(accs0, server, all@);
            lemma_same_keys_unique(accs0, self.accounts@);
        }
        self.delete_bet(bet);
        Ok(ups)
    }

    /// Pays the winners of a live bet and tombstones it. The pool is everything
    /// staked on any outcome; the winners are the wagers on `winning_outcome`, and
    /// each is credited their largest-remainder part of the pool. Losing stakes
    /// are not refunded. Returns one update per winner. On any error nothing
    /// changes.
    pub fn resolve(&mut self, bet: u64, winning_outcome: usize) -> (r: Result<
        Vec<AccountUpdate>,
        BetError,
    >)
        requires
            old(self).wf(),
        ensures
            final(self).wf(),
            !old(self).is_live(bet) || winning_outcome >= old(self).bet_row(bet).outcomes@.len()
                ==> r == Err::<Vec<AccountUpdate>, BetError>(BetError::NotFound) && final(self).same_as(*old(self)),
            old(self).is_live(bet) && winning_outcome < old(self).bet_row(bet).outcomes@.len()
                && old(self).pool(bet) > u64::MAX ==> r == Err::<Vec<AccountUpdate>, BetError>(
                BetError::InternalError,
            ) && final(self).same_as(*old(self)),
            old(self).is_live(bet) && winning_outcome < old(self).bet_row(bet).outcomes@.len()
                && old(self).pool(bet) <= u64::MAX ==> match credit_all(
                old(self).accounts_v(),
                old(self).bet_row(bet).server,
                old(self).resolve_credits(bet, winning_outcome),
            ) {
                Err(e) => r == Err::<Vec<AccountUpdate>, BetError>(e) && final(self).same_as(*old(self)),
                Ok((a, us)) => {
                    &&& r matches Ok(v) && v@ == us
                    &&& final(self).accounts_v() == a
                    &&& final(self).tombstones() == old(self).tombstones().push(bet)
                    &&& final(self).bets_v() == old(self).bets_v()
                    &&& final(self).wagers_v() == old(self).wagers_v()
                },
            },
            r matches Ok(v) ==> diff_sum(v@) == if seq_sum(
                wagers_on(old(self).wagers_v(), bet, winning_outcome as int).map_values(
                    |x: (u64, u64)| x.1,
                ),
            ) > 0 {
                old(self).pool(bet)
            } else {
                0
            },
    {
        let i = self.live_bet(bet)?;
        if winning_outcome >= self.bets[i].outcomes.len() {
            return Err(BetError::NotFound);
        }
        let server = self.bets[i].server;
        let all = self.collect_wagers(bet, i);
        // the pool
        let mut total: u128 = 0;
        let mut k: usize = 0;
        while k < all.len()
            invariant
                0 <= k <= all@.len(),
                total == pair_sum(all@.subrange(0, k as int)),
            decreases all@.len() - k,
        {
            proof {
                assert(all@.subrange(0, k + 1).drop_last() =~= all@.subrange(0, k as int));
                lemma_pair_sum_bound(all@.subrange(0, k + 1));
                assert((k + 1) * 0xffff_ffff_ffff_ffffint < 0xffff_ffff_ffff_ffff_ffff_ffff_ffff_ffffint)
                    by (nonlinear_arith)
                    requires
                        k + 1 <= 0xffff_ffff_ffff_ffffint,
                ;
            }
            total = total + all[k].1 as u128;
            k = k + 1;
        }
        assert(all@.subrange(0, all@.len() as int) =~= all@);
        if total > 0xffff_ffff_ffff_ffff {
            return Err(BetError::InternalError);
        }
        // the winners and their payouts
        let winners = self.wagers_of(bet, winning_outcome);
        let mut stakes: Vec<u64> = Vec::new();
        let mut k: usize = 0;
        while k < winners.len()
            invariant
                0 <= k <= winners@.len(),
                stakes@.len() == k,
                forall|m: int| 0 <= m < k ==> #[trigger] stakes@[m] == winners@[m].1,
            decreases winners@.len() - k,
        {
            stakes.push(winners[k].1);
            k = k + 1;
        }
        assert(stakes@ =~= winners@.map_values(|x: (u64, u64)| x.1));
        let gains = lrm(total as u64, &stakes);
        let mut credits: Vec<(u64, u64)> = Vec::new();
        let mut k: usize = 0;
        while k < winners.len()
            invariant
                0 <= k <= winners@.len(),
                gains@.len() == winners@.len(),
                credits@.len() == k,
                forall|m: int| 0 <= m < k ==> #[trigger] credits@[m] == (winners@[m].0, gains@[m]),
            decreases winners@.len() - k,
        {
            credits.push((winners[k].0, gains[k]));
            k = k + 1;
        }
        assert(credits@ =~= zip_credits(winners@, gains@));
        let ghost accs0 = self.accounts@;
        let ups = credit_each(&mut self.accounts, server, &credits)?;
        proof {
            lemma_updates_follow_credits(accs0, server, credits@);
            lemma_zip_credits_sum(winners@, gains@);
            lemma_seq_sum_nonneg(stakes@);
            if seq_sum(stakes@) == 0 {
                lemma_seq_sum_all_zero(gains@);
            }
            lemma_credit_all_keys(accs0, server, credits@);
            lemma_same_keys_unique(accs0, self.accounts@);
        }
        self.delete_bet(bet);
        Ok(ups)
    }

    /// Sets every account of `server` to `amount` coins and discards the bets of
    /// `server`, with their wagers and tombstones.
    pub fn reset(&mut self, server: u64, amount: u64) -> (r: Result<(), BetError>)
        requires
            old(self).wf(),
        ensures
            final(self).wf(),
            r is Ok,
            final(self).accounts_v() == old(self).accounts_v().map_values(
                |a: AccountRow| reset_row(a, server, amount),
            ),
            final(self).bets_v() == old(self).bets_v().filter(bet_kept(server)),
            final(self).wagers_v() == old(self).wagers_v().filter(wager_kept(old(self).bets_v(), server)),
            final(self).tombstones() == old(self).tombstones().filter(id_kept(old(self).bets_v(), server)),
    {
        let ghost bets0 = self.bets@;
        // which wagers and tombstones go with the discarded bets
        let mut keep_w: Vec<bool> = Vec::new();
        let mut k: usize = 0;
        while k < self.wagers.len()
            invariant
                bets0 == self.bets@,
                0 <= k <= self.wagers@.len(),
                keep_w@.len() == k,
                forall|m: int|
                    0 <= m < k ==> keep_w@[m] == !on_server(bets0, #[trigger] self.wagers@[m].bet, server),
            decreases self.wagers@.len() - k,
        {
            let b = self.wagers[k].bet;
            let on = match find_bet(&self.bets, b) {
                Some(j) => self.bets[j].server == server,
                None => false,
            };
            keep_w.push(!on);
            k = k + 1;
        }
        let mut keep_t: Vec<bool> = Vec::new();
        let mut k: usize = 0;
        while k < self.to_delete.len()
            invariant
                bets0 == self.bets@,
                0 <= k <= self.to_delete@.len(),
                keep_t@.len() == k,
                forall|m: int|
                    0 <= m < k ==> keep_t@[m] == !on_server(bets0, #[trigger] self.to_delete@[m], server),
            decreases self.to_delete@.len() - k,
        {
            let b = self.to_delete[k];
            let on = match find_bet(&self.bets, b) {
                Some(j) => self.bets[j].server == server,
                None => false,
            };
            keep_t.push(!on);
            k = k + 1;
        }
        let mut keep_b: Vec<bool> = Vec::new();
        let mut k: usize = 0;
        while k < self.bets.len()
            invariant
                0 <= k <= self.bets@.len(),
                keep_b@.len() == k,
                forall|m: int| 0 <= m < k ==> keep_b@[m] == ((#[trigger] self.bets@[m]).server != server),
            decreases self.bets@.len() - k,
        {
            keep_b.push(self.bets[k].server != server);
            k = k + 1;
        }
        self.wagers = kept(&self.wagers, &keep_w, Ghost(wager_kept(bets0, server)));
        self.to_delete = kept(&self.to_delete, &keep_t, Ghost(id_kept(bets0, server)));
        retain_bets(&mut self.bets, &keep_b, Ghost(bet_kept(server)));
        proof {
            lemma_filter_unique(bets0, bet_kept(server));
            lemma_filter_wagers_unique(old(self).wagers_v(), wager_kept(bets0, server));
        }
        // balances
        let ghost accs0 = self.accounts@;
        let mut k: usize = 0;
        while k < self.accounts.len()
            invariant
                self.accounts@.len() == accs0.len(),
                bets_unique(self.bets@),
                wagers_unique(self.wagers@),
                self.bets@ == old(self).bets_v().filter(bet_kept(server)),
                self.wagers@ == old(self).wagers_v().filter(wager_kept(old(self).bets_v(), server)),
                self.to_delete@ == old(self).tombstones().filter(id_kept(old(self).bets_v(), server)),
                0 <= k <= accs0.len(),
                forall|m: int| 0 <= m < k ==> #[trigger] self.accounts@[m] == reset_row(accs0[m], server, amount),
                forall|m: int| k <= m < accs0.len() ==> #[trigger] self.accounts@[m] == accs0[m],
            decreases accs0.len() - k,
        {
            let a = self.accounts[k];
            if a.server == server {
                self.accounts.set(k, AccountRow { server: a.server, user: a.user, balance: amount });
            }
            k = k + 1;
        }
        assert(self.accounts@ =~= accs0.map_values(|a: AccountRow| reset_row(a, server, amount)));
        proof {
            assert(same_keys(accs0, self.accounts@));
            lemma_same_keys_unique(accs0, self.accounts@);
        }
        Ok(())
    }

    /// Hands `income` coins to every account of `server`, or of every server.
    /// Fails, changing nothing, if a balance would not fit in 64 bits.
    fn distribute(&mut self, only: Option<u64>, income: u64) -> (r: Result<Vec<AccountUpdate>, BetError>)
        requires
            old(self).wf(),
        ensures
            final(self).wf(),
            income_overflows(old(self).accounts_v(), only, income) ==> r == Err::<
                Vec<AccountUpdate>,
                BetError,
            >(BetError::InternalError) && final(self).same_as(*old(self)),
            !income_overflows(old(self).accounts_v(), only, income) ==> {
                &&& r matches Ok(v) && v@ == income_updates(old(self).accounts_v(), only, income)
                &&& final(self).accounts_v() == old(self).accounts_v().map_values(
                    |a: AccountRow| income_row(a, only, income),
                )
                &&& final(self).bets_v() == old(self).bets_v()
                &&& final(self).wagers_v() == old(self).wagers_v()
                &&& final(self).tombstones() == old(self).tombstones()
            },
    {
        let mut k: usize = 0;
        while k < self.accounts.len()
            invariant
                self.wf(),
                self.same_as(*old(self)),
                0 <= k <= self.accounts@.len(),
                forall|m: int|
                    0 <= m < k ==> !(targeted(#[trigger] self.accounts@[m], only)
                        && self.accounts@[m].balance + income > u64::MAX),
            decreases self.accounts@.len() - k,
        {
            let a = self.accounts[k];
            let t = match only {
                None => true,
                Some(s) => a.server == s,
            };
            if t && a.balance > 0xffff_ffff_ffff_ffff - income {
                return Err(BetError::InternalError);
            }
            k = k + 1;
        }
        let ghost accs0 = self.accounts@;
        let mut ups: Vec<AccountUpdate> = Vec::new();
        let mut k: usize = 0;
        while k < self.accounts.len()
            invariant
                self.accounts@.len() == accs0.len(),
                accs0 == old(self).accounts_v(),
                self.bets@ == old(self).bets_v(),
                self.wagers@ == old(self).wagers_v(),
                self.to_delete@ == old(self).tombstones(),
                bets_unique(self.bets@),
                wagers_unique(self.wagers@),
                !income_overflows(accs0, only, income),
                0 <= k <= accs0.len(),
                forall|m: int| 0 <= m < k ==> #[trigger] self.accounts@[m] == income_row(accs0[m], only, income),
                forall|m: int| k <= m < accs0.len() ==> #[trigger] self.accounts@[m] == accs0[m],
                ups@ == income_updates(accs0.subrange(0, k as int), only, income),
            decreases accs0.len() - k,
        {
            assert(accs0.subrange(0, k + 1).drop_last() =~= accs0.subrange(0, k as int));
            let a = self.accounts[k];
            let t = match only {
                None => true,
                Some(s) => a.server == s,
            };
            if t {
                assert(!(targeted(accs0[k as int], only) && accs0[k as int].balance + income > u64::MAX));
                let nb = a.balance + income;
                self.accounts.set(k, AccountRow { server: a.server, user: a.user, balance: nb });
                ups.push(AccountUpdate { server: a.server, user: a.user, diff: income as i128, balance: nb });
            }
            k = k + 1;
        }
        assert(accs0.subrange(0, accs0.len() as int) =~= accs0);
        assert(self.accounts@ =~= accs0.map_values(|a: AccountRow| income_row(a, only, income)));
        proof {
            assert(same_keys(accs0, self.accounts@));
            lemma_same_keys_unique(accs0, self.accounts@);
        }
        Ok(ups)
    }

    /// Hands `income` coins to every account of every server. Fails, changing
    /// nothing, if a balance would not fit in 64 bits.
    pub fn global_income(&mut self, income: u64) -> (r: Result<(), BetError>)
        requires
            old(self).wf(),
        ensures
            final(self).wf(),
            income_overflows(old(self).accounts_v(), None, income) ==> r == Err::<(), BetError>(
                BetError::InternalError,
            ) && final(self).same_as(*old(self)),
            !income_overflows(old(self).accounts_v(), None, income) ==> {
                &&& r == Ok::<(), BetError>(())
                &&& final(self).accounts_v() == old(self).accounts_v().map_values(
                    |a: AccountRow| income_row(a, None, income),
                )
                &&& final(self).bets_v() == old(self).bets_v()
                &&& final(self).wagers_v() == old(self).wagers_v()
                &&& final(self).tombstones() == old(self).tombstones()
            },
    {
        match self.distribute(None, income) {
            Ok(_) => Ok(()),
            Err(e) => Err(e),
        }
    }

    /// Hands `income` coins to every account of `server` and returns the new
    /// balances, in the order of the accounts. Fails, changing nothing, if a
    /// balance would not fit in 64 bits.
    pub fn income(&mut self, server: u64, income: u64) -> (r: Result<Vec<AccountUpdate>, BetError>)
        requires
            old(self).wf(),
        ensures
            final(self).wf(),
            income_overflows(old(self).accounts_v(), Some(server), income) ==> r == Err::<
                Vec<AccountUpdate>,
                BetError,
            >(BetError::InternalError) && final(self).same_as(*old(self)),
            !income_overflows(old(self).accounts_v(), Some(server), income) ==> {
                &&& r matches Ok(v) && v@ == income_updates(old(self).accounts_v(), Some(server), income)
                &&& final(self).accounts_v() == old(self).accounts_v().map_values(
                    |a: AccountRow| income_row(a, Some(server), income),
                )
                &&& final(self).bets_v() == old(self).bets_v()
                &&& final(self).wagers_v() == old(self).wagers_v()
                &&& final(self).tombstones() == old(self).tombstones()
            },
    {
        self.distribute(Some(server), income)
    }

    /// Every account of `server`, in order, with its balance and what it has at
    /// stake on bets that are not tombstoned (capped at `u64::MAX`).
    pub fn accounts(&self, server: u64) -> (r: Vec<AccountStatus>)
        ensures
            r@.len() == statuses(self.accounts_v(), self.wagers_v(), self.tombstones(), server).len(),
            forall|k: int|
                0 <= k < r@.len() ==> {
                    let s = statuses(self.accounts_v(), self.wagers_v(), self.tombstones(), server)[k];
                    (#[trigger] r@[k]).user == s.0 && r@[k].balance == s.1 && r@[k].in_bet == s.2
                },
    {
        let mut out: Vec<AccountStatus> = Vec::new();
        let ghost accs = self.accounts@;
        let mut k: usize = 0;
        while k < self.accounts.len()
            invariant
                accs == self.accounts_v(),
                0 <= k <= accs.len(),
                out@.len() == statuses(accs.subrange(0, k as int), self.wagers_v(), self.tombstones(), server).len(),
                forall|m: int|
                    0 <= m < out@.len() ==> {
                        let s = statuses(accs.subrange(0, k as int), self.wagers_v(), self.tombstones(), server)[m];
                        (#[trigger] out@[m]).user == s.0 && out@[m].balance == s.1 && out@[m].in_bet == s.2
                    },
            decreases accs.len() - k,
        {
            assert(accs.subrange(0, k + 1).drop_last() =~= accs.subrange(0, k as int));
            let a = self.accounts[k];
            if a.server == server {
                let staked = self.staked_by(server, a.user);
                let in_bet: u64 = if staked > 0xffff_ffff_ffff_ffff {
                    0xffff_ffff_ffff_ffff
                } else {
                    staked as u64
                };
                out.push(AccountStatus { user: a.user, balance: a.balance, in_bet });
            }
            k = k + 1;
        }
        assert(accs.subrange(0, accs.len() as int) =~= accs);
        out
    }

    fn staked_by(&self, server: u64, user: u64) -> (r: u128)
        ensures
            r == stake_in(self.wagers_v(), self.tombstones(), server, user),
    {
        let mut sum: u128 = 0;
        let mut k: usize = 0;
        while k < self.wagers.len()
            invariant
                0 <= k <= self.wagers@.len(),
                sum == stake_in(self.wagers@.subrange(0, k as int), self.to_delete@, server, user),
            decreases self.wagers@.len() - k,
        {
            proof {
                assert(self.wagers@.subrange(0, k + 1).drop_last() =~= self.wagers@.subrange(0, k as int));
                lemma_stake_in_bound(self.wagers@.subrange(0, k + 1), self.to_delete@, server, user);
                assert((k + 1) * 0xffff_ffff_ffff_ffffint < 0xffff_ffff_ffff_ffff_ffff_ffff_ffff_ffffint)
                    by (nonlinear_arith)
                    requires
                        k + 1 <= 0xffff_ffff_ffff_ffffint,
                ;
            }
            let w = self.wagers[k];
            if w.server == server && w.user == user && !contains_id(&self.to_delete, w.bet) {
                sum = sum + w.amount as u128;
            }
            k = k + 1;
        }
        assert(self.wagers@.subrange(0, self.wagers@.len() as int) =~= self.wagers@);
        sum
    }

    /// Removes, for good, every tombstoned bet with its wagers, and empties the
    /// set of tombstones.
    pub fn purge_tombstoned(&mut self)
        requires
            old(self).wf(),
        ensures
            final(self).wf(),
            final(self).accounts_v() == old(self).accounts_v(),
            final(self).bets_v() == old(self).bets_v().filter(bet_survives(old(self).tombstones())),
            final(self).wagers_v() == old(self).wagers_v().filter(wager_survives(old(self).tombstones())),
            final(self).tombstones() == Seq::<u64>::empty(),
    {
        let ghost tomb = self.to_delete@;
        let ghost bets0 = self.bets@;
        let mut keep_w: Vec<bool> = Vec::new();
        let mut k: usize = 0;
        while k < self.wagers.len()
            invariant
                0 <= k <= self.wagers@.len(),
                keep_w@.len() == k,
                forall|m: int| 0 <= m < k ==> keep_w@[m] == !self.to_delete@.contains((#[trigger] self.wagers@[m]).bet),
            decreases self.wagers@.len() - k,
        {
            keep_w.push(!contains_id(&self.to_delete, self.wagers[k].bet));
            k = k + 1;
        }
        let mut keep_b: Vec<bool> = Vec::new();
        let mut k: usize = 0;
        while k < self.bets.len()
            invariant
                0 <= k <= self.bets@.len(),
                keep_b@.len() == k,
                forall|m: int| 0 <= m < k ==> keep_b@[m] == !self.to_delete@.contains((#[trigger] self.bets@[m]).uuid),
            decreases self.bets@.len() - k,
        {
            keep_b.push(!contains_id(&self.to_delete, self.bets[k].uuid));
            k = k + 1;
        }
        self.wagers = kept(&self.wagers, &keep_w, Ghost(wager_survives(tomb)));
        retain_bets(&mut self.bets, &keep_b, Ghost(bet_survives(tomb)));
        self.to_delete = Vec::new();
        proof {
            lemma_filter_unique(bets0, bet_survives(tomb));
            lemma_filter_wagers_unique(old(self).wagers_v(), wager_survives(tomb));
        }
    }

    /// A tombstoned bet takes no stake (`NotFound`), and neither does a live bet
    /// that is locked (`BetLocked`).
    pub proof fn lemma_lifecycle_guards(&self, bet: u64, outcome: usize, user: u64, amount: Amount)
        ensures
            self.tombstones().contains(bet) ==> self.stake_check(bet, outcome, user, amount) == Err::<
                u64,
                BetError,
            >(BetError::NotFound),
            self.is_live(bet) && !self.bet_row(bet).is_open ==> self.stake_check(
                bet,
                outcome,
                user,
                amount,
            ) == Err::<u64, BetError>(BetError::BetLocked),
    {
    }

    /// Adds `delta` (which may be negative) to the balance of `user` on
    /// `server` and returns the update, as `credit` says: fails with `NotFound`
    /// without that account, with `NotEnoughMoney` if the balance would go below
    /// zero, and with `InternalError` if it would not fit in 64 bits. On failure
    /// nothing changes.
    pub fn change_balance(&mut self, server: u64, user: u64, delta: i128) -> (r: Result<
        AccountUpdate,
        BetError,
    >)
        requires
            old(self).wf(),
            -0xffff_ffff_ffff_ffffi128 <= delta <= 0xffff_ffff_ffff_ffffi128,
        ensures
            final(self).wf(),
            match credit(old(self).accounts_v(), server, user, delta as int) {
                Ok((a, u)) => r == Ok::<AccountUpdate, BetError>(u) && final(self).accounts_v() == a,
                Err(e) => r == Err::<AccountUpdate, BetError>(e) && final(self).accounts_v()
                    == old(self).accounts_v(),
            },
            final(self).bets_v() == old(self).bets_v(),
            final(self).wagers_v() == old(self).wagers_v(),
            final(self).tombstones() == old(self).tombstones(),
    {
        let ghost accs0 = self.accounts@;
        let r = change_balance(&mut self.accounts, server, user, delta);
        proof {
            if r is Ok {
                lemma_credit_keys(accs0, server, user, delta as int);
                lemma_same_keys_unique(accs0, self.accounts@);
            }
        }
        r
    }

    /// Stops a live bet from taking stakes. Locking a locked bet changes nothing.
    pub fn lock_bet(&mut self, bet: u64) -> (r: Result<(), BetError>)
        requires
            old(self).wf(),
        ensures
            final(self).wf(),
            !old(self).is_live(bet) ==> r == Err::<(), BetError>(BetError::NotFound) && final(self).same_as(*old(self)),
            old(self).is_live(bet) ==> r == Ok::<(), BetError>(()) && final(self).bets_v()
                == old(self).bets_v().update(
                bet_index(old(self).bets_v(), bet),
                locked(old(self).bet_row(bet)),
            ),
            final(self).accounts_v() == old(self).accounts_v(),
            final(self).wagers_v() == old(self).wagers_v(),
            final(self).tombstones() == old(self).tombstones(),
    {
        let i = self.live_bet(bet)?;
        let ghost before = self.bets@;
        let mut row = self.bets.remove(i);
        row.is_open = false;
        self.bets.insert(i, row);
        assert(self.bets@ =~= before.update(i as int, locked(before[i as int])));
        assert forall|a: int, b: int| 0 <= a < b < self.bets@.len() implies #[trigger] self.bets@[a].uuid
            != #[trigger] self.bets@[b].uuid by {
            assert(before[a].uuid != before[b].uuid);
        }
        Ok(())
    }
}

} // verus!
