//! Decimal rendering of unsigned integers, as `Display` prints them.

use vstd::prelude::*;

verus! {

/// The character of a decimal digit.
pub open spec fn digit_char(d: nat) -> char {
    ((d + 48) as u8) as char
}

/// Decimal digits of `n`, most significant first, without leading zeros
/// (`0` is the single digit `0`).
pub open spec fn decimal(n: nat) -> Seq<char>
    decreases n,
{
    if n < 10 {
        seq![digit_char(n)]
    } else {
        decimal(n / 10).push(digit_char(n % 10))
    }
}

/// The number that decimal digits `s` (most significant first) spell.
pub open spec fn digits_value(s: Seq<char>) -> int
    decreases s.len(),
{
    if s.len() == 0 {
        0
    } else {
        digits_value(s.drop_last()) * 10 + (s.last() as int - '0' as int)
    }
}

proof fn lemma_digit_char(d: nat)
    requires
        d < 10,
    ensures
        digit_char(d) as int == d + 48,
        '0' <= digit_char(d) <= '9',
{
    assert(((d + 48) as u8) as int == d + 48);
}

/// `decimal(n)` is the decimal notation of `n`: at least one character, every
/// character a digit `0`-`9`, no leading zero unless `n` is zero, and the
/// digits spell `n`.
pub proof fn lemma_decimal_spells(n: nat)
    ensures
        decimal(n).len() >= 1,
        forall|k: int| 0 <= k < decimal(n).len() ==> '0' <= #[trigger] decimal(n)[k] <= '9',
        n > 0 ==> decimal(n)[0] != '0',
        n == 0 ==> decimal(n) == seq!['0'],
        digits_value(decimal(n)) == n,
    decreases n,
{
    if n >= 10 {
        lemma_decimal_spells(n / 10);
        lemma_digit_char(n % 10);
        let d = decimal(n / 10);
        let e = decimal(n);
        assert(e == d.push(digit_char(n % 10)));
        assert(e.drop_last() =~= d);
        assert forall|k: int| 0 <= k < e.len() implies '0' <= #[trigger] e[k] <= '9' by {
            if k < d.len() {
                assert(e[k] == d[k]);
            }
        }
        assert(e[0] == d[0]);
        assert(digits_value(e) == digits_value(d) * 10 + (n % 10));
        assert((n / 10) * 10 + n % 10 == n);
    } else {
        lemma_digit_char(n);
        assert(decimal(n).drop_last() =~= Seq::<char>::empty());
        assert(digits_value(Seq::<char>::empty()) == 0);
        assert(digits_value(decimal(n)) == digits_value(decimal(n).drop_last()) * 10 + (
        decimal(n).last() as int - '0' as int));
    }
}

fn digit_str(d: usize) -> (s: &'static str)
    requires
        d < 10,
    ensures
        s@ == seq![digit_char(d as nat)],
{
    if d == 0 {
        proof { reveal_strlit("0"); }
        "0"
    } else if d == 1 {
        proof { reveal_strlit("1"); }
        "1"
    } else if d == 2 {
        proof { reveal_strlit("2"); }
        "2"
    } else if d == 3 {
        proof { reveal_strlit("3"); }
        "3"
    } else if d == 4 {
        proof { reveal_strlit("4"); }
        "4"
    } else if d == 5 {
        proof { reveal_strlit("5"); }
        "5"
    } else if d == 6 {
        proof { reveal_strlit("6"); }
        "6"
    } else if d == 7 {
        proof { reveal_strlit("7"); }
        "7"
    } else if d == 8 {
        proof { reveal_strlit("8"); }
        "8"
    } else {
        proof { reveal_strlit("9"); }
        "9"
    }
}

/// `n` written in decimal.
pub fn decimal_string(n: usize) -> (s: String)
    ensures
        s@ == decimal(n as nat),
        digits_value(s@) == n,
        forall|k: int| 0 <= k < s@.len() ==> '0' <= #[trigger] s@[k] <= '9',
        n > 0 ==> s@[0] != '0',
    decreases n,
{
    proof {
        lemma_decimal_spells(n as nat);
    }
    if n < 10 {
        String::from_str(digit_str(n))
    } else {
        let mut s = decimal_string(n / 10);
        s.append(digit_str(n % 10));
        s
    }
}

} // verus!
