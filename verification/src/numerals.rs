//! Decimal numerals: the spec model of an unsigned 64-bit decimal
//! numeral (an optional leading `+`, then one or more digits, with a
//! value that fits in a `u64`) and a verified parser for it.

use vstd::prelude::*;

verus! {

/// True of the ten ASCII decimal digits.
pub open spec fn is_dec_digit(c: char) -> bool {
    48 <= c as u32 <= 57
}

/// The value of one decimal digit.
pub open spec fn digit_val(c: char) -> int
    recommends
        is_dec_digit(c),
{
    c as u32 - 48
}

/// True when every character of `s` is a decimal digit.
pub open spec fn all_dec_digits(s: Seq<char>) -> bool {
    forall|i: int| 0 <= i < s.len() ==> is_dec_digit(#[trigger] s[i])
}

/// The value of a digit string read in base ten.
pub open spec fn dec_val(s: Seq<char>) -> int
    recommends
        all_dec_digits(s),
    decreases s.len(),
{
    if s.len() == 0 {
        0
    } else {
        dec_val(s.drop_last()) * 10 + digit_val(s.last())
    }
}

/// The digits of a numeral: everything after an optional leading `+`.
pub open spec fn digits_part(s: Seq<char>) -> Seq<char> {
    if s.len() > 0 && s[0] == '+' {
        s.skip(1)
    } else {
        s
    }
}

/// True when `s` is a well-formed unsigned 64-bit decimal numeral: an
/// optional leading `+`, then at least one digit, nothing else, and a
/// value no greater than `u64::MAX`.
pub open spec fn is_u64_numeral(s: Seq<char>) -> bool {
    let d = digits_part(s);
    d.len() > 0 && all_dec_digits(d) && dec_val(d) <= u64::MAX
}

/// The value of a numeral.
pub open spec fn numeral_val(s: Seq<char>) -> int {
    dec_val(digits_part(s))
}

/// A digit string never has a negative value.
pub proof fn lemma_dec_val_nonneg(s: Seq<char>)
    requires
        all_dec_digits(s),
    ensures
        dec_val(s) >= 0,
    decreases s.len(),
{
    if s.len() > 0 {
        assert(forall|i: int| 0 <= i < s.drop_last().len() ==> s.drop_last()[i] == s[i]);
        lemma_dec_val_nonneg(s.drop_last());
    }
}

/// Extending a digit string never decreases its value: every prefix is
/// worth at most the whole.
pub proof fn lemma_dec_val_prefix_le(s: Seq<char>, j: int)
    requires
        all_dec_digits(s),
        0 <= j <= s.len(),
    ensures
        dec_val(s.take(j)) <= dec_val(s),
    decreases s.len() - j,
{
    if j == s.len() {
        assert(s.take(j) =~= s);
    } else {
        assert(s.take(j + 1).drop_last() =~= s.take(j));
        assert(s.take(j + 1).last() == s[j]);
        assert(forall|i: int| 0 <= i < j ==> s.take(j)[i] == s[i]);
        lemma_dec_val_nonneg(s.take(j));
        assert(dec_val(s.take(j + 1)) == dec_val(s.take(j)) * 10 + digit_val(s[j]));
        assert(dec_val(s.take(j)) <= dec_val(s.take(j + 1)));
        lemma_dec_val_prefix_le(s, j + 1);
    }
}

/// Parses an unsigned 64-bit decimal numeral. Returns `Some` exactly on
/// the well-formed numerals, and then carries the numeral's value.
pub fn parse_u64(s: &str) -> (r: Option<u64>)
    ensures
        r is Some <==> is_u64_numeral(s@),
        is_u64_numeral(s@) ==> r == Some(numeral_val(s@) as u64),
{
    let n = s.unicode_len();
    let has_sign = n > 0 && s.get_char(0) == '+';
    let start: usize = if has_sign { 1 } else { 0 };
    let ghost dp: Seq<char> = digits_part(s@);
    proof {
        assert(dp =~= s@.skip(start as int));
    }
    if n == start {
        return None;
    }
    let mut val: u64 = 0;
    let mut i: usize = start;
    while i < n
        invariant
            start <= i <= n,
            n == s@.len(),
            start <= 1,
            dp == s@.skip(start as int),
            dp == digits_part(s@),
            all_dec_digits(dp.take(i - start)),
            val == dec_val(dp.take(i - start)),
        decreases n - i,
    {
        let c = s.get_char(i);
        let cu = c as u32;
        proof {
            assert(dp[i - start] == s@[i as int]);
        }
        if cu < 48 || cu > 57 {
            proof {
                assert(!is_dec_digit(dp[i - start]));
            }
            return None;
        }
        let d = (cu - 48) as u64;
        proof {
            assert(dp.take(i + 1 - start).drop_last() =~= dp.take(i - start));
            assert(dp.take(i + 1 - start).last() == dp[i - start]);
            assert(forall|k: int| 0 <= k < i + 1 - start ==> dp.take(i + 1 - start)[k] == dp[k]);
            assert(dec_val(dp.take(i + 1 - start)) == val * 10 + d);
        }
        if val > (u64::MAX - d) / 10 {
            proof {
                if all_dec_digits(dp) {
                    assert(val * 10 + d > u64::MAX) by (nonlinear_arith)
                        requires
                            val > (u64::MAX - d) / 10,
                            d <= 9,
                    ;
                    lemma_dec_val_prefix_le(dp, i + 1 - start);
                }
            }
            return None;
        }
        proof {
            assert(val * 10 + d <= u64::MAX) by (nonlinear_arith)
                requires
                    val <= (u64::MAX - d) / 10,
                    d <= 9,
            ;
        }
        val = val * 10 + d;
        i = i + 1;
    }
    proof {
        assert(dp.take(i - start) =~= dp);
    }
    Some(val)
}

} // verus!
