use bets::payout::lrm;

#[test]
fn split_of_the_demo_pool() {
    assert_eq!(lrm(100, &vec![10, 50]), vec![17, 83]);
}

#[test]
fn leftover_goes_by_remainder_then_order() {
    assert_eq!(lrm(10, &vec![1, 1, 1]), vec![4, 3, 3]);
    assert_eq!(lrm(1, &vec![1, 1]), vec![1, 0]);
    assert_eq!(lrm(5, &vec![1, 3]), vec![1, 4]);
    assert_eq!(lrm(7, &vec![2, 1, 2]), vec![3, 1, 3]);
}

#[test]
fn same_input_same_split() {
    let stakes = vec![3, 7, 7, 1, 9];
    let a = lrm(101, &stakes);
    let b = lrm(101, &stakes);
    assert_eq!(a, b);
    assert_eq!(a.iter().sum::<u64>(), 101);
}

#[test]
fn no_winning_stake_pays_nothing() {
    assert_eq!(lrm(50, &vec![0, 0]), vec![0, 0]);
    assert_eq!(lrm(50, &vec![]), Vec::<u64>::new());
}

#[test]
fn payouts_stay_within_one_of_the_share() {
    let stakes = vec![5, 11, 13, 2];
    let total: u64 = 97;
    let s: u64 = stakes.iter().sum();
    let r = lrm(total, &stakes);
    assert_eq!(r.iter().sum::<u64>(), total);
    for (p, st) in r.iter().zip(stakes.iter()) {
        let f = total * st / s;
        assert!(*p == f || *p == f + 1);
    }
}

#[test]
fn large_pool_does_not_overflow() {
    let r = lrm(u64::MAX, &vec![u64::MAX, u64::MAX]);
    assert_eq!(r, vec![u64::MAX / 2 + 1, u64::MAX / 2]);
}
