use bets::{Amount, BetError, Bets};

fn demo_setup() -> Bets {
    let mut bets = Bets::new();
    bets.create_account(1, 0, 100).unwrap();
    bets.create_account(1, 1, 100).unwrap();
    bets.create_account(1, 2, 100).unwrap();
    bets.create_bet(1, 1, "Who will win the Rocket League 1v1 ?", &["Alice", "Bob"]).unwrap();
    bets.bet_on(1, 0, 0, Amount::FLAT(10)).unwrap();
    bets.bet_on(1, 1, 1, Amount::FLAT(40)).unwrap();
    bets.bet_on(1, 0, 2, Amount::FRACTION(1, 2)).unwrap();
    bets
}

#[test]
fn bet_demo() -> Result<(), BetError> {
    // variables for readability
    let server_id = 1;
    let bet_id = 1;
    let (alice, bob, charlie) = (0, 1, 2);
    let mut bets = Bets::new();
    // Create 3 accounts on server 1 with 100 starting coins
    bets.create_account(server_id, alice, 100)?;
    bets.create_account(server_id, bob, 100)?;
    bets.create_account(server_id, charlie, 100)?;
    // Create a bet with 2 outcomes
    bets.create_bet(bet_id, server_id, "Who will win the Rocket League 1v1 ?", &vec!["Alice", "Bob"])?;
    // Alice bets on herself (outcome 0) with 10 coins
    bets.bet_on(bet_id, 0, alice, Amount::FLAT(10))?;
    // Bob bets on himself (outcome 1) with 40 coins
    bets.bet_on(bet_id, 1, bob, Amount::FLAT(40))?;
    // Charlie bets on Alice with half of his coins (50)
    bets.bet_on(bet_id, 0, charlie, Amount::FRACTION(1, 2))?;
    assert_eq!(bets.balance(server_id, alice)?, 90);
    assert_eq!(bets.balance(server_id, bob)?, 60);
    assert_eq!(bets.balance(server_id, charlie)?, 50);
    bets.lock_bet(bet_id)?;
    // Alice won: the pool of 100 is split 10:50 among Alice and Charlie
    bets.resolve(bet_id, 0)?;
    assert_eq!(bets.balance(server_id, alice)?, 107);
    assert_eq!(bets.balance(server_id, bob)?, 60);
    assert_eq!(bets.balance(server_id, charlie)?, 133);
    Ok(())
}

#[test]
fn resolve_payouts_and_updates() {
    let mut bets = demo_setup();
    bets.lock_bet(1).unwrap();
    let ups = bets.resolve(1, 0).unwrap();
    assert_eq!(ups.len(), 2);
    assert_eq!((ups[0].user, ups[0].diff, ups[0].balance), (0, 17, 107));
    assert_eq!((ups[1].user, ups[1].diff, ups[1].balance), (2, 83, 133));
    let credited: i128 = ups.iter().map(|u| u.diff).sum();
    assert_eq!(credited, 100);
}

#[test]
fn resolve_with_no_winner_credits_nothing() {
    let mut bets = Bets::new();
    bets.create_account(1, 0, 100).unwrap();
    bets.create_bet(5, 1, "d", &["a", "b"]).unwrap();
    bets.bet_on(5, 0, 0, Amount::FLAT(30)).unwrap();
    let ups = bets.resolve(5, 1).unwrap();
    assert!(ups.is_empty());
    assert_eq!(bets.balance(1, 0).unwrap(), 70);
}

#[test]
fn abort_refunds_everyone() {
    let mut bets = demo_setup();
    let ups = bets.abort_bet(1).unwrap();
    assert_eq!(ups.len(), 3);
    assert_eq!((ups[0].user, ups[0].diff, ups[0].balance), (0, 10, 100));
    assert_eq!((ups[1].user, ups[1].diff, ups[1].balance), (2, 50, 100));
    assert_eq!((ups[2].user, ups[2].diff, ups[2].balance), (1, 40, 100));
    for user in 0..3 {
        assert_eq!(bets.balance(1, user).unwrap(), 100);
    }
    assert!(matches!(bets.bet_info(1), Err(BetError::NotFound)));
    assert!(matches!(bets.outcomes_statuses(1), Err(BetError::NotFound)));
    assert!(matches!(bets.abort_bet(1), Err(BetError::NotFound)));
    assert!(matches!(bets.resolve(1, 0), Err(BetError::NotFound)));
    assert!(matches!(bets.bet_on(1, 0, 0, Amount::FLAT(1)), Err(BetError::NotFound)));
}

#[test]
fn stake_escrows_coins() {
    let mut bets = Bets::new();
    bets.create_account(3, 7, 100).unwrap();
    bets.create_bet(9, 3, "d", &["x", "y"]).unwrap();
    let (u, snap) = bets.bet_on(9, 1, 7, Amount::FLAT(25)).unwrap();
    assert_eq!((u.server, u.user, u.diff, u.balance), (3, 7, -25, 75));
    assert_eq!(snap.outcomes.len(), 2);
    assert_eq!(snap.outcomes[1].wagers, vec![(7, 25)]);
    assert!(snap.outcomes[0].wagers.is_empty());
    let (u, snap) = bets.bet_on(9, 1, 7, Amount::FLAT(5)).unwrap();
    assert_eq!(u.balance, 70);
    assert_eq!(snap.outcomes[1].wagers, vec![(7, 30)]);
    assert_eq!(snap.desc, "d");
    assert!(snap.is_open);
    assert_eq!(snap.outcomes[1].desc, "y");
}

#[test]
fn stake_guards() {
    let mut bets = Bets::new();
    bets.create_account(1, 0, 100).unwrap();
    bets.create_bet(1, 1, "d", &["a", "b"]).unwrap();
    assert!(matches!(bets.bet_on(2, 0, 0, Amount::FLAT(1)), Err(BetError::NotFound)));
    assert!(matches!(bets.bet_on(1, 2, 0, Amount::FLAT(1)), Err(BetError::NotFound)));
    assert!(matches!(bets.bet_on(1, 0, 9, Amount::FLAT(1)), Err(BetError::NotFound)));
    assert!(matches!(bets.bet_on(1, 0, 0, Amount::FLAT(101)), Err(BetError::NotEnoughMoney)));
    bets.bet_on(1, 0, 0, Amount::FLAT(1)).unwrap();
    assert!(matches!(bets.bet_on(1, 1, 0, Amount::FLAT(1)), Err(BetError::MultiOpt(0))));
    assert_eq!(bets.balance(1, 0).unwrap(), 99);
    bets.lock_bet(1).unwrap();
    bets.lock_bet(1).unwrap();
    assert!(matches!(bets.bet_on(1, 0, 0, Amount::FLAT(1)), Err(BetError::BetLocked)));
    assert_eq!(bets.balance(1, 0).unwrap(), 99);
    assert!(matches!(bets.lock_bet(4), Err(BetError::NotFound)));
}

#[test]
fn duplicate_keys_are_refused() {
    let mut bets = Bets::new();
    bets.create_account(1, 0, 5).unwrap();
    assert!(matches!(bets.create_account(1, 0, 7), Err(BetError::AlreadyExists)));
    assert_eq!(bets.balance(1, 0).unwrap(), 5);
    bets.create_account(2, 0, 7).unwrap();
    bets.create_bet(1, 1, "d", &["a"]).unwrap();
    assert!(matches!(bets.create_bet(1, 2, "e", &["b"]), Err(BetError::AlreadyExists)));
    assert!(matches!(bets.balance(3, 0), Err(BetError::NotFound)));
}

#[test]
fn bet_queries() {
    let mut bets = Bets::new();
    bets.create_bet(4, 2, "who", &["a", "b", "c"]).unwrap();
    assert_eq!(bets.outcomes_of_bet(4).unwrap(), vec![0, 1, 2]);
    let info = bets.bet_info(4).unwrap();
    assert_eq!((info.desc.as_str(), info.server, info.author, info.is_open), ("who", 2, None, true));
    let o = bets.outcome_status(4, 2).unwrap();
    assert_eq!(o.desc, "c");
    assert!(o.wagers.is_empty());
    assert!(matches!(bets.outcome_status(4, 3), Err(BetError::NotFound)));
    assert!(bets.assert_bet_not_deleted(4).is_ok());
    bets.lock_bet(4).unwrap();
    assert!(!bets.bet_info(4).unwrap().is_open);
}

#[test]
fn income_and_reset() {
    let mut bets = Bets::new();
    bets.create_account(1, 0, 10).unwrap();
    bets.create_account(2, 0, 20).unwrap();
    bets.create_account(1, 1, 30).unwrap();
    let ups = bets.income(1, 5).unwrap();
    assert_eq!(ups.len(), 2);
    assert_eq!((ups[0].user, ups[0].diff, ups[0].balance), (0, 5, 15));
    assert_eq!((ups[1].user, ups[1].diff, ups[1].balance), (1, 5, 35));
    assert_eq!(bets.balance(2, 0).unwrap(), 20);
    bets.global_income(1).unwrap();
    assert_eq!(bets.balance(1, 0).unwrap(), 16);
    assert_eq!(bets.balance(2, 0).unwrap(), 21);
    bets.create_bet(1, 1, "d", &["a"]).unwrap();
    bets.create_bet(2, 2, "e", &["a"]).unwrap();
    bets.bet_on(1, 0, 0, Amount::FLAT(6)).unwrap();
    bets.reset(1, 50).unwrap();
    assert_eq!(bets.balance(1, 0).unwrap(), 50);
    assert_eq!(bets.balance(1, 1).unwrap(), 50);
    assert_eq!(bets.balance(2, 0).unwrap(), 21);
    assert!(matches!(bets.bet_info(1), Err(BetError::NotFound)));
    assert!(bets.bet_info(2).is_ok());
    let accs = bets.accounts(1);
    assert_eq!(accs.len(), 2);
    assert_eq!((accs[0].user, accs[0].balance, accs[0].in_bet), (0, 50, 0));
}

#[test]
fn income_overflow_changes_nothing() {
    let mut bets = Bets::new();
    bets.create_account(1, 0, 10).unwrap();
    bets.create_account(1, 1, u64::MAX).unwrap();
    assert!(matches!(bets.income(1, 1), Err(BetError::InternalError)));
    assert!(matches!(bets.global_income(1), Err(BetError::InternalError)));
    assert_eq!(bets.balance(1, 0).unwrap(), 10);
}

#[test]
fn accounts_report_stakes_on_live_bets() {
    let mut bets = demo_setup();
    let accs = bets.accounts(1);
    assert_eq!(accs.len(), 3);
    assert_eq!((accs[0].user, accs[0].balance, accs[0].in_bet), (0, 90, 10));
    assert_eq!((accs[1].user, accs[1].balance, accs[1].in_bet), (1, 60, 40));
    assert_eq!((accs[2].user, accs[2].balance, accs[2].in_bet), (2, 50, 50));
    bets.resolve(1, 1).unwrap();
    let accs = bets.accounts(1);
    assert_eq!((accs[1].user, accs[1].balance, accs[1].in_bet), (1, 160, 0));
    assert!(bets.accounts(2).is_empty());
}

#[test]
fn purge_removes_tombstoned_bets() {
    let mut bets = demo_setup();
    bets.create_bet(2, 1, "other", &["a"]).unwrap();
    bets.abort_bet(1).unwrap();
    bets.purge_tombstoned();
    assert!(matches!(bets.bet_info(1), Err(BetError::NotFound)));
    assert!(bets.bet_info(2).is_ok());
    // the id is free again
    bets.create_bet(1, 1, "again", &["a", "b"]).unwrap();
    let o = bets.outcome_status(1, 0).unwrap();
    assert!(o.wagers.is_empty());
}

#[test]
fn restore_round_trip_and_duplicates() {
    let bets = demo_setup();
    let again = Bets::restore(
        bets.account_rows().clone(),
        Vec::new(),
        bets.wager_rows().clone(),
        bets.tombstone_ids().clone(),
    )
    .unwrap();
    assert_eq!(again.balance(1, 2).unwrap(), 50);
    assert_eq!(again.wager_rows().len(), 3);
    let dup = vec![
        bets::AccountRow { server: 1, user: 1, balance: 3 },
        bets::AccountRow { server: 1, user: 1, balance: 4 },
    ];
    assert!(matches!(Bets::restore(dup, Vec::new(), Vec::new(), Vec::new()), Err(BetError::AlreadyExists)));
}

#[test]
fn balance_deltas() {
    let mut bets = Bets::new();
    bets.create_account(1, 0, 10).unwrap();
    let u = bets.change_balance(1, 0, -4).unwrap();
    assert_eq!((u.diff, u.balance), (-4, 6));
    assert!(matches!(bets.change_balance(1, 0, -7), Err(BetError::NotEnoughMoney)));
    assert!(matches!(bets.change_balance(1, 5, 1), Err(BetError::NotFound)));
    assert!(matches!(bets.change_balance(1, 0, u64::MAX as i128), Err(BetError::InternalError)));
    assert_eq!(bets.balance(1, 0).unwrap(), 6);
}
