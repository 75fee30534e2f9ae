//! The values that the ledger hands out and the rows it keeps.

use vstd::prelude::*;

verus! {

/// A stake on one outcome.
pub struct Position {
    pub outcome: usize,
    pub amount: u64,
}

/// The change of one account's balance, and the balance that resulted.
#[derive(Debug, Clone, Copy)]
pub struct AccountUpdate {
    pub server: u64,
    pub user: u64,
    pub diff: i128,
    pub balance: u64,
}

/// What a bet is, without its outcomes.
pub struct BetInfo {
    pub desc: String,
    pub server: u64,
    pub author: Option<u64>,
    pub is_open: bool,
}

/// A snapshot of a bet: its description, state, and every outcome with its wagers.
pub struct Bet {
    pub bet: u64,
    pub server: u64,
    pub author: Option<u64>,
    pub desc: String,
    pub outcomes: Vec<Outcome>,
    pub is_open: bool,
}

/// One outcome of a bet, with its wagers as `(user, amount)` pairs.
pub struct Outcome {
    pub desc: String,
    pub wagers: Vec<(u64, u64)>,
}

/// An account's balance and the coins it has at stake on live bets.
pub struct AccountStatus {
    pub user: u64,
    pub balance: u64,
    pub in_bet: u64,
}

/// What can go wrong in the ledger.
#[derive(Debug, Clone)]
pub enum BetError {
    /// The user already stakes on another outcome of this bet: the one given.
    MultiOpt(usize),
    /// An unknown or deleted bet, account or outcome.
    NotFound,
    /// The stake is more than the balance, or rounds down to nothing.
    NotEnoughMoney,
    /// Staking on a bet that no longer takes stakes.
    BetLocked,
    /// An account or a bet with that key exists already.
    AlreadyExists,
    /// A stake written in text that is not a number.
    ParseError,
    /// A balance or a sum of stakes would not fit in 64 bits.
    InternalError,
}

/// One account row: `(server, user) -> balance`.
#[derive(Debug, Clone, Copy)]
pub struct AccountRow {
    pub server: u64,
    pub user: u64,
    pub balance: u64,
}

/// One bet row, with the descriptions of its outcomes in order.
#[derive(Debug)]
pub struct BetRow {
    pub uuid: u64,
    pub server: u64,
    pub author: Option<u64>,
    pub desc: String,
    pub is_open: bool,
    pub outcomes: Vec<String>,
}

/// One wager row: what `user` has staked on `outcome` of `bet`.
#[derive(Debug, Clone, Copy)]
pub struct WagerRow {
    pub bet: u64,
    pub outcome: usize,
    pub server: u64,
    pub user: u64,
    pub amount: u64,
}

} // verus!
