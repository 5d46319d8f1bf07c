//! Decimal digit strings: their value, their rendering, and an exact
//! overflow-aware reader. Shared by the annotation parser and the journal
//! row codec.

use vstd::prelude::*;

verus! {

/// The byte is an ASCII decimal digit.
pub open spec fn is_digit(b: u8) -> bool {
    48 <= b <= 57
}

/// Every byte of the string is an ASCII decimal digit.
pub open spec fn all_digits(s: Seq<u8>) -> bool {
    forall|i: int| 0 <= i < s.len() ==> is_digit(s[i])
}

/// Numeric value of a decimal digit string (most significant digit first).
pub open spec fn digits_value(s: Seq<u8>) -> nat
    decreases s.len(),
{
    if s.len() == 0 {
        0
    } else {
        10 * digits_value(s.drop_last()) + (s.last() - 48) as nat
    }
}

/// Canonical decimal rendering of a number, without leading zeros
/// (a single zero digit for zero).
pub open spec fn dec_str(n: nat) -> Seq<u8>
    decreases n,
{
    if n < 10 {
        seq![(48 + n) as u8]
    } else {
        dec_str(n / 10).push((48 + n % 10) as u8)
    }
}

/// Reading back a rendered number gives the number.
pub proof fn lemma_dec_str_value(n: nat)
    ensures
        dec_str(n).len() >= 1,
        all_digits(dec_str(n)),
        digits_value(dec_str(n)) == n,
    decreases n,
{
    if n < 10 {
        let s = dec_str(n);
        assert(s.len() == 1);
        assert(s.drop_last() =~= Seq::<u8>::empty());
        assert(digits_value(Seq::<u8>::empty()) == 0);
        assert(digits_value(s) == (s.last() - 48) as nat);
    } else {
        lemma_dec_str_value(n / 10);
        let s = dec_str(n);
        assert(s.drop_last() =~= dec_str(n / 10));
        assert(s.last() == (48 + n % 10) as u8);
        assert(digits_value(s) == 10 * (n / 10) + n % 10);
        assert(forall|i: int|
            0 <= i < s.len() ==> is_digit(#[trigger] s[i]) == if i < s.len() - 1 {
                is_digit(dec_str(n / 10)[i])
            } else {
                is_digit(s.last())
            });
    }
}

/// Renders a number in decimal.
pub fn render_u64(n: u64) -> (r: Vec<u8>)
    ensures
        r@ == dec_str(n as nat),
    decreases n,
{
    if n < 10 {
        let d: u8 = 48 + (n as u8);
        let mut r: Vec<u8> = Vec::new();
        r.push(d);
        proof {
            assert(r@ =~= dec_str(n as nat));
        }
        r
    } else {
        let mut r = render_u64(n / 10);
        let d: u8 = 48 + ((n % 10) as u8);
        r.push(d);
        proof {
            assert(r@ =~= dec_str(n as nat));
        }
        r
    }
}

/// Reads a decimal digit string; `None` when its value does not fit in
/// a `u64`.
pub fn digits_value_checked(s: &Vec<u8>) -> (r: Option<u64>)
    requires
        all_digits(s@),
    ensures
        match r {
            Some(v) => v == digits_value(s@),
            None => digits_value(s@) > u64::MAX,
        },
{
    let mut acc: Option<u64> = Some(0);
    let mut i: usize = 0;
    proof {
        assert(s@.take(0) =~= Seq::<u8>::empty());
    }
    while i < s.len()
        invariant
            i <= s@.len(),
            all_digits(s@),
            match acc {
                Some(v) => v == digits_value(s@.take(i as int)),
                None => digits_value(s@.take(i as int)) > u64::MAX,
            },
        decreases s@.len() - i,
    {
        let b = s[i];
        let d: u64 = (b - 48) as u64;
        proof {
            assert(is_digit(s@[i as int]));
            assert(s@.take(i as int + 1).drop_last() =~= s@.take(i as int));
            assert(s@.take(i as int + 1).last() == s@[i as int]);
            assert(digits_value(s@.take(i as int + 1)) == 10 * digits_value(s@.take(i as int))
                + d);
        }
        acc = match acc {
            Some(v) => {
                if v > (u64::MAX - d) / 10 {
                    proof {
                        let lim = (u64::MAX - d) as int;
                        assert(10 * ((lim / 10) + 1) > lim) by {
                            assert(10 * (lim / 10) + lim % 10 == lim);
                        }
                        assert(10 * v >= 10 * ((lim / 10) + 1));
                    }
                    None
                } else {
                    proof {
                        let lim = (u64::MAX - d) as int;
                        assert(10 * (lim / 10) <= lim) by {
                            assert(10 * (lim / 10) + lim % 10 == lim);
                        }
                        assert(10 * v <= 10 * (lim / 10));
                    }
                    Some(v * 10 + d)
                }
            },
            None => {
                proof {
                    let prev = digits_value(s@.take(i as int));
                    assert(10 * prev >= prev);
                }
                None
            },
        };
        i += 1;
    }
    proof {
        assert(s@.take(s@.len() as int) =~= s@);
    }
    acc
}

/// Tests that the string is a nonempty run of decimal digits.
pub fn check_digits(s: &Vec<u8>) -> (r: bool)
    ensures
        r == (s@.len() > 0 && all_digits(s@)),
{
    if s.len() == 0 {
        return false;
    }
    let mut i: usize = 0;
    while i < s.len()
        invariant
            i <= s@.len(),
            forall|k: int| 0 <= k < i ==> is_digit(s@[k]),
        decreases s@.len() - i,
    {
        let b = s[i];
        if b < 48 || b > 57 {
            return false;
        }
        i += 1;
    }
    true
}

} // verus!
