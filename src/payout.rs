//! Largest-remainder split of a prize pool among winning stakes.

use vstd::prelude::*;

verus! {

/// Sum of a sequence of amounts, as a mathematical integer.
pub open spec fn seq_sum(s: Seq<u64>) -> int
    decreases s.len(),
{
    if s.len() == 0 {
        0
    } else {
        seq_sum(s.drop_last()) + s.last()
    }
}

/// The floor of winner `i`'s exact share `t * s[i] / S` of the pool `t`.
pub open spec fn floor_share(t: u64, s: Seq<u64>, i: int) -> int {
    (t * s[i]) / seq_sum(s)
}

/// The remainder left when winner `i`'s exact share is rounded down, scaled by `S`.
pub open spec fn share_rem(t: u64, s: Seq<u64>, i: int) -> int {
    (t * s[i]) % seq_sum(s)
}

/// Winner `i` comes before winner `j` in the order in which leftover units are
/// handed out: larger remainder first, then smaller index.
pub open spec fn precedes(t: u64, s: Seq<u64>, i: int, j: int) -> bool {
    share_rem(t, s, i) > share_rem(t, s, j) || (share_rem(t, s, i) == share_rem(t, s, j) && i < j)
}

/// `r` is the largest-remainder split of pool `t` among stakes `s`.
///
/// With no winning stake nothing is paid. Otherwise every winner gets the floor
/// of their share or one more, the payouts add up to the pool, and whoever got
/// the extra unit comes before, in `precedes`, everyone who did not.
pub open spec fn is_lrm_payout(t: u64, s: Seq<u64>, r: Seq<u64>) -> bool {
    &&& r.len() == s.len()
    &&& seq_sum(s) == 0 ==> forall|i: int| 0 <= i < r.len() ==> r[i] == 0
    &&& seq_sum(s) > 0 ==> {
        &&& seq_sum(r) == t
        &&& forall|i: int|
            0 <= i < r.len() ==> (r[i] == floor_share(t, s, i) || r[i] == floor_share(t, s, i) + 1)
        &&& forall|i: int, j: int|
            0 <= i < r.len() && 0 <= j < r.len() && #[trigger] r[i] == floor_share(t, s, i) + 1
                && #[trigger] r[j] == floor_share(t, s, j) ==> precedes(t, s, i, j)
    }
}

/// Number of `true` entries.
pub open spec fn count_true(b: Seq<bool>) -> int
    decreases b.len(),
{
    if b.len() == 0 {
        0
    } else {
        count_true(b.drop_last()) + if b.last() {
            1int
        } else {
            0int
        }
    }
}

pub proof fn lemma_seq_sum_nonneg(s: Seq<u64>)
    ensures
        seq_sum(s) >= 0,
    decreases s.len(),
{
    if s.len() > 0 {
        lemma_seq_sum_nonneg(s.drop_last());
    }
}

proof fn lemma_seq_sum_bound(s: Seq<u64>)
    ensures
        seq_sum(s) <= s.len() * 0xffff_ffff_ffff_ffffint,
    decreases s.len(),
{
    if s.len() > 0 {
        lemma_seq_sum_bound(s.drop_last());
        assert(seq_sum(s) <= s.len() * 0xffff_ffff_ffff_ffffint) by (nonlinear_arith)
            requires
                seq_sum(s) == seq_sum(s.drop_last()) + s.last(),
                seq_sum(s.drop_last()) <= (s.len() - 1) * 0xffff_ffff_ffff_ffffint,
                s.last() <= 0xffff_ffff_ffff_ffffint,
        ;
    }
}

pub proof fn lemma_seq_sum_all_zero(s: Seq<u64>)
    requires
        forall|i: int| 0 <= i < s.len() ==> s[i] == 0,
    ensures
        seq_sum(s) == 0,
    decreases s.len(),
{
    if s.len() > 0 {
        lemma_seq_sum_all_zero(s.drop_last());
    }
}

proof fn lemma_count_true_bound(b: Seq<bool>)
    ensures
        0 <= count_true(b) <= b.len(),
        count_true(b) < b.len() ==> exists|i: int| 0 <= i < b.len() && !b[i],
    decreases b.len(),
{
    if b.len() > 0 {
        lemma_count_true_bound(b.drop_last());
        if count_true(b) < b.len() {
            if b.last() {
                let i = choose|i: int| 0 <= i < b.drop_last().len() && !b.drop_last()[i];
                assert(!b[i]);
            } else {
                assert(!b[b.len() - 1]);
            }
        }
    }
}

proof fn lemma_count_true_set(b: Seq<bool>, k: int)
    requires
        0 <= k < b.len(),
        !b[k],
    ensures
        count_true(b.update(k, true)) == count_true(b) + 1,
    decreases b.len(),
{
    let c = b.update(k, true);
    if k == b.len() - 1 {
        assert(c.drop_last() =~= b.drop_last());
    } else {
        assert(c.drop_last() =~= b.drop_last().update(k, true));
        lemma_count_true_set(b.drop_last(), k);
    }
}

/// The floors and the scaled remainders of a prefix add up to the pool times the
/// prefix's stake.
proof fn lemma_floor_rem_prefix(t: u64, s: Seq<u64>, n: int)
    requires
        seq_sum(s) > 0,
        0 <= n <= s.len(),
    ensures
        floor_sum(t, s, n) * seq_sum(s) + rem_sum(t, s, n) == t * seq_sum(s.subrange(0, n)),
        rem_sum(t, s, n) <= n * (seq_sum(s) - 1),
        rem_sum(t, s, n) >= 0,
        floor_sum(t, s, n) >= 0,
    decreases n,
{
    if n > 0 {
        lemma_floor_rem_prefix(t, s, n - 1);
        assert(s.subrange(0, n).drop_last() =~= s.subrange(0, n - 1));
        let d = seq_sum(s);
        let x = t * s[n - 1];
        vstd::arithmetic::div_mod::lemma_fundamental_div_mod(x, d);
        vstd::arithmetic::div_mod::lemma_mod_bound(x, d);
        vstd::arithmetic::div_mod::lemma_div_pos_is_pos(x, d);
        assert(x >= 0) by (nonlinear_arith)
            requires
                t >= 0,
                s[n - 1] >= 0,
                x == t * s[n - 1],
        ;
        assert(floor_sum(t, s, n) * d + rem_sum(t, s, n) == t * seq_sum(s.subrange(0, n)))
            by (nonlinear_arith)
            requires
                floor_sum(t, s, n) == floor_sum(t, s, n - 1) + x / d,
                rem_sum(t, s, n) == rem_sum(t, s, n - 1) + x % d,
                floor_sum(t, s, n - 1) * d + rem_sum(t, s, n - 1) == t * seq_sum(
                    s.subrange(0, n - 1),
                ),
                x == d * (x / d) + x % d,
                x == t * s[n - 1],
                seq_sum(s.subrange(0, n)) == seq_sum(s.subrange(0, n - 1)) + s[n - 1],
        ;
        assert(rem_sum(t, s, n) <= n * (d - 1)) by (nonlinear_arith)
            requires
                rem_sum(t, s, n) == rem_sum(t, s, n - 1) + x % d,
                rem_sum(t, s, n - 1) <= (n - 1) * (d - 1),
                x % d < d,
        ;
    }
}

/// Sum of the first `n` floors.
pub open spec fn floor_sum(t: u64, s: Seq<u64>, n: int) -> int
    decreases n,
{
    if n <= 0 {
        0
    } else {
        floor_sum(t, s, n - 1) + floor_share(t, s, n - 1)
    }
}

/// Sum of the first `n` scaled remainders.
pub open spec fn rem_sum(t: u64, s: Seq<u64>, n: int) -> int
    decreases n,
{
    if n <= 0 {
        0
    } else {
        rem_sum(t, s, n - 1) + share_rem(t, s, n - 1)
    }
}

/// The number of units left over once every winner got the floor of their share
/// is at most the number of winners (and below it when there is one).
proof fn lemma_leftover_bound(t: u64, s: Seq<u64>)
    requires
        seq_sum(s) > 0,
    ensures
        0 <= t - floor_sum(t, s, s.len() as int) <= s.len(),
{
    let n = s.len() as int;
    lemma_floor_rem_prefix(t, s, n);
    assert(s.subrange(0, n) =~= s);
    let d = seq_sum(s);
    let f = floor_sum(t, s, n);
    let r = rem_sum(t, s, n);
    assert(0 <= t - f <= n) by (nonlinear_arith)
        requires
            f * d + r == t * d,
            0 <= r <= n * (d - 1),
            d > 0,
            n >= 0,
    ;
}

/// The largest-remainder split of pool `t` among stakes `s`.
pub open spec fn lrm_payout(t: u64, s: Seq<u64>) -> Seq<u64> {
    choose|r: Seq<u64>| is_lrm_payout(t, s, r)
}

proof fn lemma_sum_pointwise_le(a: Seq<u64>, b: Seq<u64>, i: int)
    requires
        a.len() == b.len(),
        forall|k: int| 0 <= k < a.len() ==> a[k] <= b[k],
        0 <= i < a.len(),
        a[i] < b[i],
    ensures
        seq_sum(a) < seq_sum(b),
    decreases a.len(),
{
    lemma_sum_le(a.drop_last(), b.drop_last());
    if i < a.len() - 1 {
        lemma_sum_pointwise_le(a.drop_last(), b.drop_last(), i);
    }
}

proof fn lemma_sum_le(a: Seq<u64>, b: Seq<u64>)
    requires
        a.len() == b.len(),
        forall|k: int| 0 <= k < a.len() ==> a[k] <= b[k],
    ensures
        seq_sum(a) <= seq_sum(b),
    decreases a.len(),
{
    if a.len() > 0 {
        lemma_sum_le(a.drop_last(), b.drop_last());
    }
}

/// Only one split meets `is_lrm_payout`: the same pool and stakes always give
/// the same payouts, leftover units going by remainder and then by the winners'
/// order.
pub proof fn lemma_lrm_unique(t: u64, s: Seq<u64>, r1: Seq<u64>, r2: Seq<u64>)
    requires
        is_lrm_payout(t, s, r1),
        is_lrm_payout(t, s, r2),
    ensures
        r1 == r2,
{
    if seq_sum(s) > 0 {
        assert forall|i: int| 0 <= i < r1.len() implies r1[i] == r2[i] by {
            if r1[i] != r2[i] {
                if r1[i] > r2[i] {
                    if forall|k: int| 0 <= k < r1.len() ==> r2[k] <= r1[k] {
                        lemma_sum_pointwise_le(r2, r1, i);
                    }
                    let j = choose|k: int| 0 <= k < r1.len() && !(r2[k] <= r1[k]);
                    assert(precedes(t, s, i, j));
                    assert(precedes(t, s, j, i));
                } else {
                    if forall|k: int| 0 <= k < r1.len() ==> r1[k] <= r2[k] {
                        lemma_sum_pointwise_le(r1, r2, i);
                    }
                    let j = choose|k: int| 0 <= k < r1.len() && !(r1[k] <= r2[k]);
                    assert(precedes(t, s, i, j));
                    assert(precedes(t, s, j, i));
                }
            }
        }
    } else {
        lemma_seq_sum_nonneg(s);
        assert forall|i: int| 0 <= i < r1.len() implies r1[i] == r2[i] by {
            assert(r1[i] == 0 && r2[i] == 0);
        }
    }
    assert(r1 =~= r2);
}

/// Splits the pool `total` among the winning stakes `wins` by the largest
/// remainder method: each winner gets the floor of `total * wins[i] / S`, and the
/// units left over go one each to the winners with the largest remainders, ties
/// going to the earlier winner. With `S == 0` every payout is `0`.
pub fn lrm(total: u64, wins: &Vec<u64>) -> (r: Vec<u64>)
    ensures
        is_lrm_payout(total, wins@, r@),
        r@ == lrm_payout(total, wins@),
{
    let n = wins.len();
    let ghost s = wins@;
    // total stake
    let mut stake: u128 = 0;
    let mut i: usize = 0;
    while i < n
        invariant
            s == wins@,
            n == s.len(),
            0 <= i <= n,
            stake == seq_sum(s.subrange(0, i as int)),
        decreases n - i,
    {
        proof {
            assert(s.subrange(0, i + 1).drop_last() =~= s.subrange(0, i as int));
            lemma_seq_sum_bound(s.subrange(0, i + 1));
            assert((i + 1) * 0xffff_ffff_ffff_ffffint < 0xffff_ffff_ffff_ffff_ffff_ffff_ffff_ffffint)
                by (nonlinear_arith)
                requires
                    i + 1 <= 0xffff_ffff_ffff_ffffint,
            ;
        }
        stake = stake + wins[i] as u128;
        i = i + 1;
    }
    assert(s.subrange(0, n as int) =~= s);
    if stake == 0 {
        let mut r: Vec<u64> = Vec::new();
        let mut j: usize = 0;
        while j < n
            invariant
                n == s.len(),
                0 <= j <= n,
                r@.len() == j,
                forall|k: int| 0 <= k < j ==> r@[k] == 0,
            decreases n - j,
        {
            r.push(0);
            j = j + 1;
        }
        proof {
            assert(is_lrm_payout(total, s, r@));
            lemma_lrm_unique(total, s, r@, lrm_payout(total, s));
        }
        return r;
    }
    // floors and remainders

    let mut floors: Vec<u64> = Vec::new();
    let mut rems: Vec<u128> = Vec::new();
    let mut fsum: u64 = 0;
    let mut i: usize = 0;
    while i < n
        invariant
            s == wins@,
            n == s.len(),
            stake == seq_sum(s),
            stake > 0,
            0 <= i <= n,
            floors@.len() == i,
            rems@.len() == i,
            forall|k: int| 0 <= k < i ==> floors@[k] == floor_share(total, s, k),
            forall|k: int| 0 <= k < i ==> rems@[k] == share_rem(total, s, k),
            fsum == floor_sum(total, s, i as int),
        decreases n - i,
    {
        proof {
            assert(total * wins[i as int] <= 0xffff_ffff_ffff_ffffint * 0xffff_ffff_ffff_ffffint)
                by (nonlinear_arith)
                requires
                    total <= 0xffff_ffff_ffff_ffffint,
                    wins[i as int] <= 0xffff_ffff_ffff_ffffint,
            ;
        }
        let x: u128 = total as u128 * wins[i] as u128;
        proof {
            lemma_floor_rem_prefix(total, s, i + 1);
            lemma_leftover_bound(total, s);
            lemma_floor_rem_prefix(total, s, n as int);
            lemma_floor_sum_mono(total, s, i + 1, n as int);
        }
        let f = (x / stake) as u64;
        floors.push(f);
        rems.push(x % stake);
        fsum = fsum + f;
        i = i + 1;
    }
    proof {
        lemma_leftover_bound(total, s);
    }
    let k: u64 = total - fsum;
    // hand out the leftover units
    let mut bonus: Vec<bool> = Vec::new();
    let mut j: usize = 0;
    while j < n
        invariant
            n == s.len(),
            0 <= j <= n,
            bonus@.len() == j,
            forall|m: int| 0 <= m < j ==> !bonus@[m],
        decreases n - j,
    {
        bonus.push(false);
        j = j + 1;
    }
    proof {
        assert(count_true(bonus@) == 0) by {
            lemma_count_false(bonus@);
        }
    }
    let mut given: u64 = 0;
    while given < k
        invariant
            s == wins@,
            n == s.len(),
            stake == seq_sum(s),
            stake > 0,
            floors@.len() == n,
            rems@.len() == n,
            forall|m: int| 0 <= m < n ==> rems@[m] == share_rem(total, s, m),
            bonus@.len() == n,
            k <= n,
            0 <= given <= k,
            count_true(bonus@) == given,
            forall|a: int, b: int|
                0 <= a < n && 0 <= b < n && #[trigger] bonus@[a] && !#[trigger] bonus@[b]
                    ==> precedes(total, s, a, b),
        decreases k - given,
    {
        proof {
            lemma_count_true_bound(bonus@);
        }
        let mut best: usize = n;
        let mut j: usize = 0;
        while j < n
            invariant
                n == s.len(),
                rems@.len() == n,
                forall|m: int| 0 <= m < n ==> rems@[m] == share_rem(total, s, m),
                bonus@.len() == n,
                0 <= j <= n,
                best == n || (best < j && !bonus@[best as int]),
                best == n ==> forall|m: int| 0 <= m < j ==> bonus@[m],
                best < n ==> forall|m: int|
                    0 <= m < j && !bonus@[m] && m != best ==> precedes(total, s, best as int, m),
            decreases n - j,
        {
            if !bonus[j] {
                if best == n || rems[j] > rems[best] {
                    best = j;
                }
            }
            j = j + 1;
        }
        assert(best < n);
        proof {
            lemma_count_true_set(bonus@, best as int);
        }
        bonus.set(best, true);
        given = given + 1;
    }
    // payouts
    let mut r: Vec<u64> = Vec::new();
    let mut j: usize = 0;
    while j < n
        invariant
            s == wins@,
            n == s.len(),
            stake == seq_sum(s),
            stake > 0,
            floors@.len() == n,
            forall|m: int| 0 <= m < n ==> floors@[m] == floor_share(total, s, m),
            bonus@.len() == n,
            0 <= j <= n,
            r@.len() == j,
            forall|m: int|
                0 <= m < j ==> r@[m] == floor_share(total, s, m) + if bonus@[m] {
                    1int
                } else {
                    0int
                },
            seq_sum(r@) == floor_sum(total, s, j as int) + count_true(bonus@.subrange(0, j as int)),
            floor_sum(total, s, n as int) + count_true(bonus@) == total,
        decreases n - j,
    {
        let ghost old_r = r@;
        proof {
            lemma_floor_sum_mono(total, s, j + 1, n as int);
            lemma_floor_nonneg(total, s, j as int);
            lemma_floor_rem_prefix(total, s, j as int);
            assert(bonus@.subrange(0, j + 1).drop_last() =~= bonus@.subrange(0, j as int));
            assert(bonus@.subrange(0, j + 1).last() == bonus@[j as int]);
            lemma_count_true_prefix(bonus@, j + 1);
            lemma_count_true_bound(bonus@.subrange(0, j as int));
        }
        let v: u64 = if bonus[j] {
            floors[j] + 1
        } else {
            floors[j]
        };
        r.push(v);
        proof {
            assert(r@.drop_last() =~= old_r);
        }
        j = j + 1;
    }
    assert(bonus@.subrange(0, n as int) =~= bonus@);
    proof {
        assert(is_lrm_payout(total, s, r@));
        lemma_lrm_unique(total, s, r@, lrm_payout(total, s));
    }
    r
}

proof fn lemma_count_true_prefix(b: Seq<bool>, n: int)
    requires
        0 <= n <= b.len(),
    ensures
        count_true(b.subrange(0, n)) <= count_true(b),
    decreases b.len(),
{
    if n < b.len() {
        assert(b.drop_last().subrange(0, n) =~= b.subrange(0, n));
        lemma_count_true_prefix(b.drop_last(), n);
    } else {
        assert(b.subrange(0, n) =~= b);
    }
}

proof fn lemma_count_false(b: Seq<bool>)
    requires
        forall|m: int| 0 <= m < b.len() ==> !b[m],
    ensures
        count_true(b) == 0,
    decreases b.len(),
{
    if b.len() > 0 {
        lemma_count_false(b.drop_last());
    }
}

proof fn lemma_floor_nonneg(t: u64, s: Seq<u64>, i: int)
    requires
        seq_sum(s) > 0,
        0 <= i < s.len(),
    ensures
        floor_share(t, s, i) >= 0,
{
    let x = t * s[i];
    assert(x >= 0) by (nonlinear_arith)
        requires
            t >= 0,
            s[i] >= 0,
            x == t * s[i],
    ;
    vstd::arithmetic::div_mod::lemma_div_pos_is_pos(x, seq_sum(s));
}

proof fn lemma_floor_sum_mono(t: u64, s: Seq<u64>, a: int, b: int)
    requires
        seq_sum(s) > 0,
        0 <= a <= b <= s.len(),
    ensures
        floor_sum(t, s, a) <= floor_sum(t, s, b),
    decreases b - a,
{
    if a < b {
        lemma_floor_sum_mono(t, s, a, b - 1);
        lemma_floor_nonneg(t, s, b - 1);
    }
}

} // verus!
