//! Stake amounts: a number of coins or a fraction of the balance, how they
//! resolve against a balance, and how they are read from text.

use vstd::prelude::*;
use crate::structs::BetError;
use vstd::string::StringSliceAdditionalSpecFns;

verus! {

/// How much to stake: a number of coins, or the fraction `num / den` of the
/// balance.
#[allow(non_camel_case_types)]
#[derive(Debug, Clone, Copy)]
pub enum Amount {
    FLAT(u64),
    FRACTION(u64, u64),
}

/// `ceil(a / d)` for `d > 0`.
pub open spec fn ceil_div(a: int, d: int) -> int {
    (a + d - 1) / d
}

impl Amount {
    /// The number of coins this amount stands for on a balance of `balance`.
    ///
    /// A flat amount must not exceed the balance. A fraction must lie in
    /// `[0, 1]` and gives `ceil(balance * fraction)`, which must not be zero.
    pub open spec fn resolved(self, balance: u64) -> Result<u64, BetError> {
        match self {
            Amount::FLAT(v) => if v > balance {
                Err(BetError::NotEnoughMoney)
            } else {
                Ok(v)
            },
            Amount::FRACTION(num, den) => if den == 0 {
                Err(BetError::ParseError)
            } else if num > den {
                Err(BetError::NotEnoughMoney)
            } else if ceil_div(balance * num, den as int) == 0 {
                Err(BetError::NotEnoughMoney)
            } else {
                Ok(ceil_div(balance * num, den as int) as u64)
            },
        }
    }

    /// Turns the amount into a number of coins, given the current balance.
    pub fn resolve(&self, balance: u64) -> (r: Result<u64, BetError>)
        ensures
            r == self.resolved(balance),
            r matches Ok(v) ==> v <= balance,
    {
        match *self {
            Amount::FLAT(v) => if v > balance {
                Err(BetError::NotEnoughMoney)
            } else {
                Ok(v)
            },
            Amount::FRACTION(num, den) => {
                if den == 0 {
                    return Err(BetError::ParseError);
                }
                if num > den {
                    return Err(BetError::NotEnoughMoney);
                }
                proof {
                    assert(balance * num <= balance * den) by (nonlinear_arith)
                        requires
                            num <= den,
                    ;
                    assert(balance * den <= 0xffff_ffff_ffff_ffffint * 0xffff_ffff_ffff_ffffint)
                        by (nonlinear_arith)
                        requires
                            balance <= 0xffff_ffff_ffff_ffffint,
                            den <= 0xffff_ffff_ffff_ffffint,
                    ;
                    assert(ceil_div(balance * num, den as int) <= balance) by (nonlinear_arith)
                        requires
                            balance * num <= balance * den,
                            den > 0,
                            balance >= 0,
                    ;
                    assert(ceil_div(balance * num, den as int) >= 0) by (nonlinear_arith)
                        requires
                            balance * num >= 0,
                            den > 0,
                    ;
                }
                let a: u128 = balance as u128 * num as u128;
                let c: u128 = (a + den as u128 - 1) / den as u128;
                if c == 0 {
                    Err(BetError::NotEnoughMoney)
                } else {
                    Ok(c as u64)
                }
            },
        }
    }
}

/// ASCII white space: space, tab, line feed, vertical tab, form feed, carriage return.
pub open spec fn is_space(c: u8) -> bool {
    c == 32 || (9 <= c && c <= 13)
}

pub open spec fn is_digit(c: u8) -> bool {
    48 <= c && c <= 57
}

/// `s` without its leading white space.
pub open spec fn trim_start(s: Seq<u8>) -> Seq<u8>
    decreases s.len(),
{
    if s.len() > 0 && is_space(s[0]) {
        trim_start(s.drop_first())
    } else {
        s
    }
}

/// `s` without its trailing white space.
pub open spec fn trim_end(s: Seq<u8>) -> Seq<u8>
    decreases s.len(),
{
    if s.len() > 0 && is_space(s.last()) {
        trim_end(s.drop_last())
    } else {
        s
    }
}

/// The decimal digits `s` appended to the number `acc`.
pub open spec fn digits_from(acc: int, s: Seq<u8>) -> int
    decreases s.len(),
{
    if s.len() == 0 {
        acc
    } else {
        digits_from(acc, s.drop_last()) * 10 + (s.last() - 48)
    }
}

pub open spec fn all_digits(s: Seq<u8>) -> bool {
    forall|i: int| 0 <= i < s.len() ==> is_digit(#[trigger] s[i])
}

/// The digits `s` appended to `acc`, if they are all digits and the number fits in 64 bits.
pub open spec fn read_digits(acc: int, s: Seq<u8>) -> Option<u64> {
    if all_digits(s) && digits_from(acc, s) <= u64::MAX {
        Some(digits_from(acc, s) as u64)
    } else {
        None
    }
}

/// Index of the last `.` in `s`, or -1.
pub open spec fn last_dot(s: Seq<u8>) -> int
    decreases s.len(),
{
    if s.len() == 0 {
        -1
    } else if s.last() == 46 {
        s.len() - 1
    } else {
        last_dot(s.drop_last())
    }
}

pub open spec fn pow10(n: nat) -> nat
    decreases n,
{
    if n == 0 {
        1
    } else {
        10 * pow10((n - 1) as nat)
    }
}

/// The amount that the text `s` (its UTF-8 bytes) stands for. Surrounding white
/// space is ignored. A trailing `%` makes a percentage of the balance, written
/// with digits and at most one `.` (at most 16 digits after it); anything else
/// must be a whole number of coins.
pub open spec fn parse_text(s: Seq<u8>) -> Result<Amount, BetError> {
    let t = trim_end(trim_start(s));
    if t.len() > 0 && t.last() == 37 {
        let body = t.drop_last();
        let d = last_dot(body);
        let ip = if d < 0 { body } else { body.subrange(0, d) };
        let fp = if d < 0 { Seq::<u8>::empty() } else { body.subrange(d + 1, body.len() as int) };
        if ip.len() + fp.len() == 0 || fp.len() > 16 {
            Err(BetError::ParseError)
        } else {
            match read_digits(0, ip) {
                None => Err(BetError::ParseError),
                Some(a) => match read_digits(a as int, fp) {
                    None => Err(BetError::ParseError),
                    Some(v) => Ok(Amount::FRACTION(v, (100 * pow10(fp.len())) as u64)),
                },
            }
        }
    } else if t.len() == 0 {
        Err(BetError::ParseError)
    } else {
        match read_digits(0, t) {
            None => Err(BetError::ParseError),
            Some(v) => Ok(Amount::FLAT(v)),
        }
    }
}

proof fn lemma_digits_grow(acc: int, s: Seq<u8>, k: int)
    requires
        acc >= 0,
        all_digits(s),
        0 <= k <= s.len(),
    ensures
        acc <= digits_from(acc, s.subrange(0, k)) <= digits_from(acc, s),
    decreases s.len(),
{
    if k == s.len() {
        assert(s.subrange(0, k) =~= s);
        if s.len() > 0 {
            lemma_digits_grow(acc, s.drop_last(), 0);
            assert(s.drop_last().subrange(0, 0) =~= s.subrange(0, 0));
        }
    } else {
        assert(s.drop_last().subrange(0, k) =~= s.subrange(0, k));
        assert(all_digits(s.drop_last())) by {
            assert forall|i: int| 0 <= i < s.drop_last().len() implies is_digit(#[trigger] s.drop_last()[i]) by {
                assert(s.drop_last()[i] == s[i]);
            }
        }
        lemma_digits_grow(acc, s.drop_last(), k);
        assert(is_digit(s[s.len() - 1]));
    }
}

fn read_digits_exec(b: &[u8], from: usize, to: usize, acc: u64) -> (r: Option<u64>)
    requires
        from <= to <= b@.len(),
    ensures
        r == read_digits(acc as int, b@.subrange(from as int, to as int)),
{
    let ghost s = b@.subrange(from as int, to as int);
    let mut v: u64 = acc;
    let mut i: usize = from;
    while i < to
        invariant
            from <= i <= to <= b@.len(),
            s == b@.subrange(from as int, to as int),
            all_digits(b@.subrange(from as int, i as int)),
            v == digits_from(acc as int, b@.subrange(from as int, i as int)),
        decreases to - i,
    {
        let c = b[i];
        assert(b@.subrange(from as int, i + 1).drop_last() =~= b@.subrange(from as int, i as int));
        if c < 48 || c > 57 {
            assert(s[i - from] == c);
            return None;
        }
        if v > (0xffff_ffff_ffff_ffff - (c - 48) as u64) / 10 {
            proof {
                assert(all_digits(b@.subrange(from as int, i + 1))) by {
                    assert forall|k: int| 0 <= k < i + 1 - from implies is_digit(#[trigger] b@.subrange(from as int, i + 1)[k]) by {
                        if k < i - from {
                            assert(b@.subrange(from as int, i + 1)[k] == b@.subrange(from as int, i as int)[k]);
                        }
                    }
                }
                if all_digits(s) {
                    assert(s.subrange(0, i + 1 - from) =~= b@.subrange(from as int, i + 1));
                    lemma_digits_grow(acc as int, s, i + 1 - from);
                }
            }
            return None;
        }
        v = v * 10 + (c - 48) as u64;
        proof {
            assert forall|k: int| 0 <= k < i + 1 - from implies is_digit(#[trigger] b@.subrange(from as int, i + 1)[k]) by {
                if k < i - from {
                    assert(b@.subrange(from as int, i + 1)[k] == b@.subrange(from as int, i as int)[k]);
                }
            }
        }
        i = i + 1;
    }
    Some(v)
}

impl Amount {
    /// Reads an amount from text: `"40"` is 40 coins, `"50%"` half the balance,
    /// `"12.5%"` an eighth of it. Anything else is a `ParseError`.
    pub fn parse(s: &str) -> (r: Result<Amount, BetError>)
        ensures
            r == parse_text(s.spec_bytes()),
    {
        let b = s.as_bytes();
        let n = b.len();
        let mut lo: usize = 0;
        assert(b@.subrange(0, n as int) =~= b@);
        while lo < n && (b[lo] == 32 || (9 <= b[lo] && b[lo] <= 13))
            invariant
                0 <= lo <= n == b@.len(),
                trim_start(b@) == trim_start(b@.subrange(lo as int, n as int)),
            decreases n - lo,
        {
            assert(b@.subrange(lo as int, n as int).drop_first() =~= b@.subrange(lo + 1, n as int));
            lo = lo + 1;
        }
        assert(trim_start(b@) == b@.subrange(lo as int, n as int));
        let mut hi: usize = n;
        while hi > lo && (b[hi - 1] == 32 || (9 <= b[hi - 1] && b[hi - 1] <= 13))
            invariant
                0 <= lo <= hi <= n == b@.len(),
                trim_end(b@.subrange(lo as int, n as int)) == trim_end(b@.subrange(lo as int, hi as int)),
            decreases hi - lo,
        {
            assert(b@.subrange(lo as int, hi as int).drop_last() =~= b@.subrange(lo as int, hi - 1));
            hi = hi - 1;
        }
        let ghost t = b@.subrange(lo as int, hi as int);
        assert(trim_end(trim_start(b@)) == t);
        if hi > lo && b[hi - 1] == 37 {
            let ghost body = t.drop_last();
            // the last dot of the body
            let mut d: usize = hi - 1;
            let mut found = false;
            let mut j: usize = lo;
            while j < hi - 1
                invariant
                    lo <= j <= hi - 1,
                    hi <= b@.len(),
                    body == b@.subrange(lo as int, hi - 1),
                    last_dot(b@.subrange(lo as int, j as int)) < 0 ==> !found,
                    last_dot(b@.subrange(lo as int, j as int)) >= 0 ==> found && d == lo + last_dot(
                        b@.subrange(lo as int, j as int),
                    ),
                    found ==> lo <= d < j,
                decreases hi - 1 - j,
            {
                assert(b@.subrange(lo as int, j + 1).drop_last() =~= b@.subrange(lo as int, j as int));
                if b[j] == 46 {
                    d = j;
                    found = true;
                }
                j = j + 1;
            }
            assert(b@.subrange(lo as int, j as int) =~= body);
            let (ie, fs) = if found {
                (d, d + 1)
            } else {
                (hi - 1, hi - 1)
            };
            assert(b@.subrange(lo as int, ie as int) =~= if last_dot(body) < 0 { body } else { body.subrange(0, last_dot(body)) });
            assert(b@.subrange(fs as int, hi - 1) =~= if last_dot(body) < 0 { Seq::<u8>::empty() } else { body.subrange(last_dot(body) + 1, body.len() as int) });
            let flen = hi - 1 - fs;
            if (ie - lo) + flen == 0 || flen > 16 {
                return Err(BetError::ParseError);
            }
            let a = match read_digits_exec(b, lo, ie, 0) {
                None => {
                    return Err(BetError::ParseError);
                },
                Some(a) => a,
            };
            let v = match read_digits_exec(b, fs, hi - 1, a) {
                None => {
                    return Err(BetError::ParseError);
                },
                Some(v) => v,
            };
            let mut den: u64 = 100;
            let mut k: usize = 0;
            while k < flen
                invariant
                    0 <= k <= flen <= 16,
                    den == 100 * pow10(k as nat),
                decreases flen - k,
            {
                proof {
                    lemma_pow10_mono((k + 1) as nat, 16);
                    reveal_with_fuel(pow10, 17);
                }
                den = den * 10;
                k = k + 1;
            }
            Ok(Amount::FRACTION(v, den))
        } else if hi == lo {
            Err(BetError::ParseError)
        } else {
            match read_digits_exec(b, lo, hi, 0) {
                None => Err(BetError::ParseError),
                Some(v) => Ok(Amount::FLAT(v)),
            }
        }
    }
}

proof fn lemma_pow10_mono(a: nat, b: nat)
    requires
        a <= b,
    ensures
        pow10(a) <= pow10(b),
    decreases b,
{
    if a < b {
        lemma_pow10_mono(a, (b - 1) as nat);
    }
}

/// Staking the whole balance as a fraction gives the whole balance, a flat stake
/// above the balance is refused, and so is a fraction that rounds to zero.
pub proof fn lemma_resolve_laws(balance: u64, v: u64, num: u64, den: u64)
    ensures
        balance > 0 ==> Amount::FRACTION(1, 1).resolved(balance) == Ok::<u64, BetError>(balance),
        v > balance ==> Amount::FLAT(v).resolved(balance) == Err::<u64, BetError>(
            BetError::NotEnoughMoney,
        ),
        0 < den && num <= den && ceil_div(balance * num, den as int) == 0 ==> Amount::FRACTION(
            num,
            den,
        ).resolved(balance) == Err::<u64, BetError>(BetError::NotEnoughMoney),
{
    assert(ceil_div(balance * 1, 1) == balance);
}

} // verus!
