//! Decimal rendering of numbers as ASCII digit bytes.

use vstd::prelude::*;

verus! {

/// The decimal digits of a non-negative number, most significant first.
pub open spec fn dec_digits(n: int) -> Seq<u8>
    decreases n,
{
    if n < 10 {
        seq![(48 + if n >= 0 {
            n
        } else {
            0
        }) as u8]
    } else {
        dec_digits(n / 10).push((48 + n % 10) as u8)
    }
}

/// Wider numbers have at least as many digits.
pub proof fn lemma_dec_width_monotone(m: int, n: int)
    requires
        0 <= m <= n,
    ensures
        dec_digits(m).len() <= dec_digits(n).len(),
    decreases n,
{
    if n >= 10 {
        if m >= 10 {
            lemma_dec_width_monotone(m / 10, n / 10);
        } else {
            lemma_dec_width_monotone(0, n / 10);
        }
    }
}

/// Appends the decimal digits of `n`.
pub fn push_dec(out: &mut Vec<u8>, n: u128)
    ensures
        final(out)@ == old(out)@ + dec_digits(n as int),
{
    let mut tmp: Vec<u8> = Vec::new();
    let mut m: u128 = n;
    let mut more: bool = true;
    proof {
        assert(dec_digits(n as int) =~= dec_digits(n as int) + tmp@.reverse());
    }
    while more
        invariant
            more ==> dec_digits(n as int) == dec_digits(m as int) + tmp@.reverse(),
            !more ==> dec_digits(n as int) == tmp@.reverse(),
        decreases m, if more {
            1int
        } else {
            0int
        },
    {
        let d: u8 = (m % 10) as u8 + 48;
        let ghost tmp0 = tmp@;
        let ghost m0 = m as int;
        tmp.push(d);
        proof {
            assert(tmp@.reverse() =~= seq![d] + tmp0.reverse());
        }
        m = m / 10;
        if m == 0 {
            more = false;
        }
        proof {
            if m0 < 10 {
                assert(dec_digits(m0) == seq![(48 + m0) as u8]);
                assert(dec_digits(m0) + tmp0.reverse() =~= seq![d] + tmp0.reverse());
            } else {
                assert(dec_digits(m0) == dec_digits(m0 / 10).push((48 + m0 % 10) as u8));
                assert(dec_digits(m0 / 10).push((48 + m0 % 10) as u8) + tmp0.reverse()
                    =~= dec_digits(m0 / 10) + (seq![d] + tmp0.reverse()));
            }
        }
    }
    let k = tmp.len();
    let mut i: usize = 0;
    proof {
        assert(old(out)@ + tmp@.reverse().take(0) =~= old(out)@);
    }
    while i < k
        invariant
            k == tmp@.len(),
            i <= k,
            dec_digits(n as int) == tmp@.reverse(),
            out@ == old(out)@ + tmp@.reverse().take(i as int),
        decreases k - i,
    {
        out.push(tmp[k - 1 - i]);
        proof {
            assert(tmp@.reverse()[i as int] == tmp@[k - 1 - i]);
            assert(out@ =~= old(out)@ + tmp@.reverse().take(i + 1));
        }
        i = i + 1;
    }
    proof {
        assert(tmp@.reverse().take(k as int) =~= tmp@.reverse());
    }
}

} // verus!
