//! Decimal numbers in report values: parsing raw fields and printing the
//! scaled results, with rounding and fixed-point display helpers.

use vstd::prelude::*;
use vstd::string::StrSliceExecFns;
use vstd::string::StringExecFns;

verus! {

/// The digit character of a value below ten.
pub open spec fn digit_char(d: int) -> char {
    if d == 0 {
        '0'
    } else if d == 1 {
        '1'
    } else if d == 2 {
        '2'
    } else if d == 3 {
        '3'
    } else if d == 4 {
        '4'
    } else if d == 5 {
        '5'
    } else if d == 6 {
        '6'
    } else if d == 7 {
        '7'
    } else if d == 8 {
        '8'
    } else {
        '9'
    }
}

/// The decimal digits of a natural number, most significant first.
pub open spec fn dec_digits(n: nat) -> Seq<char>
    decreases n,
{
    if n < 10 {
        seq![digit_char(n as int)]
    } else {
        dec_digits(n / 10).push(digit_char((n % 10) as int))
    }
}

fn digit_str(d: u128) -> (r: &'static str)
    requires
        d < 10,
    ensures
        r@ == seq![digit_char(d as int)],
{
    proof {
        reveal_strlit("0");
        reveal_strlit("1");
        reveal_strlit("2");
        reveal_strlit("3");
        reveal_strlit("4");
        reveal_strlit("5");
        reveal_strlit("6");
        reveal_strlit("7");
        reveal_strlit("8");
        reveal_strlit("9");
    }
    let r: &'static str = if d == 0 {
        "0"
    } else if d == 1 {
        "1"
    } else if d == 2 {
        "2"
    } else if d == 3 {
        "3"
    } else if d == 4 {
        "4"
    } else if d == 5 {
        "5"
    } else if d == 6 {
        "6"
    } else if d == 7 {
        "7"
    } else if d == 8 {
        "8"
    } else {
        "9"
    };
    proof {
        assert(r@ =~= seq![digit_char(d as int)]);
    }
    r
}

/// Prints a number in decimal.
pub(crate) fn u128_to_string(n: u128) -> (s: String)
    ensures
        s@ == dec_digits(n as nat),
    decreases n,
{
    if n < 10 {
        String::from_str(digit_str(n))
    } else {
        let mut s = u128_to_string(n / 10);
        s.append(digit_str(n % 10));
        proof {
            assert(s@ =~= dec_digits((n / 10) as nat).push(digit_char((n % 10) as int)));
        }
        s
    }
}

/// Whether every character of the sequence is a decimal digit.
pub open spec fn all_digits(s: Seq<char>) -> bool {
    forall|i: int| 0 <= i < s.len() ==> '0' <= s[i] && s[i] <= '9'
}

/// The value of a digit sequence, by place value; empty counts as zero.
pub open spec fn digits_val(s: Seq<char>) -> int
    decreases s.len(),
{
    if s.len() == 0 {
        0
    } else {
        digits_val(s.drop_last()) * 10 + (s.last() as int - '0' as int)
    }
}

/// A digit sequence's value is non-negative and no prefix exceeds it.
pub proof fn lemma_digits_prefix(s: Seq<char>, k: int)
    requires
        all_digits(s),
        0 <= k <= s.len(),
    ensures
        0 <= digits_val(s.take(k)),
        digits_val(s.take(k)) <= digits_val(s),
    decreases s.len(),
{
    if s.len() == 0 {
        assert(s.take(k) =~= s);
    } else if k == s.len() {
        assert(s.take(k) =~= s);
        assert(all_digits(s.drop_last()));
        lemma_digits_prefix(s.drop_last(), s.len() - 1);
        assert(s.drop_last().take(s.len() - 1) =~= s.drop_last());
    } else {
        assert(all_digits(s.drop_last()));
        assert(s.take(k) =~= s.drop_last().take(k));
        lemma_digits_prefix(s.drop_last(), k);
        lemma_digits_prefix(s.drop_last(), s.len() - 1);
        assert(s.drop_last().take(s.len() - 1) =~= s.drop_last());
    }
}

/// Whether a raw value is accepted as an unsigned decimal number: one or
/// more digits whose value fits a `u64`.
pub open spec fn is_u64_digits(s: Seq<char>) -> bool {
    s.len() > 0 && all_digits(s) && digits_val(s) <= u64::MAX
}

/// Reads an unsigned decimal number; anything else is refused.
pub(crate) fn parse_u64(s: &str) -> (r: Option<u64>)
    ensures
        match r {
            Some(v) => is_u64_digits(s@) && v == digits_val(s@),
            None => !is_u64_digits(s@),
        },
{
    let n = s.unicode_len();
    if n == 0 {
        return None;
    }
    let mut acc: u64 = 0;
    let mut i: usize = 0;
    proof {
        assert(s@.take(0) =~= Seq::<char>::empty());
    }
    while i < n
        invariant
            i <= n,
            n == s@.len(),
            acc == digits_val(s@.take(i as int)),
            forall|j: int| 0 <= j < i ==> '0' <= s@[j] && s@[j] <= '9',
        decreases n - i,
    {
        let c = s.get_char(i);
        if c < '0' || c > '9' {
            return None;
        }
        let d: u64 = (c as u32 - '0' as u32) as u64;
        proof {
            assert(s@.take(i + 1 as int).drop_last() =~= s@.take(i as int));
            assert(s@.take(i + 1 as int).last() == s@[i as int]);
        }
        if acc > (u64::MAX - d) / 10 {
            proof {
                assert(digits_val(s@.take(i + 1 as int)) > u64::MAX);
                if all_digits(s@) {
                    lemma_digits_prefix(s@, i + 1);
                    assert(s@.take(s@.len() as int) =~= s@);
                    assert(digits_val(s@) > u64::MAX);
                }
            }
            return None;
        }
        acc = acc * 10 + d;
        i += 1;
    }
    proof {
        assert(s@.take(n as int) =~= s@);
    }
    Some(acc)
}

/// Division rounded to the nearest whole number, halves rounding up, for
/// a positive divisor and non-negative dividend.
pub open spec fn round_div(a: int, b: int) -> int {
    (2 * a + b) / (2 * b)
}

pub(crate) fn round_div_u128(a: u128, b: u128) -> (r: u128)
    requires
        b > 0,
        2 * a + b <= u128::MAX,
        2 * b <= u128::MAX,
    ensures
        r == round_div(a as int, b as int),
{
    (2 * a + b) / (2 * b)
}

/// A value below one thousand, padded with zeros to three digits.
pub open spec fn pad3(n: int) -> Seq<char> {
    if n < 10 {
        seq!['0', '0'] + dec_digits(n as nat)
    } else if n < 100 {
        seq!['0'] + dec_digits(n as nat)
    } else {
        dec_digits(n as nat)
    }
}

pub(crate) fn pad3_exec(n: u128) -> (s: String)
    requires
        n < 1000,
    ensures
        s@ == pad3(n as int),
{
    proof {
        reveal_strlit("00");
        reveal_strlit("0");
    }
    let mut s = String::new();
    if n < 10 {
        s.append("00");
        proof {
            assert(s@ =~= seq!['0', '0']);
        }
    } else if n < 100 {
        s.append("0");
        proof {
            assert(s@ =~= seq!['0']);
        }
    }
    let t = u128_to_string(n);
    s.append(t.as_str());
    proof {
        assert(s@ =~= pad3(n as int));
    }
    s
}

/// `m` tenths of a unit, shown with one decimal place.
pub open spec fn tenths_str(m: int) -> Seq<char> {
    dec_digits((m / 10) as nat) + seq!['.'] + dec_digits((m % 10) as nat)
}

pub(crate) fn tenths_exec(m: u128) -> (s: String)
    ensures
        s@ == tenths_str(m as int),
{
    proof {
        reveal_strlit(".");
    }
    let mut s = u128_to_string(m / 10);
    s.append(".");
    let f = u128_to_string(m % 10);
    s.append(f.as_str());
    proof {
        assert(s@ =~= tenths_str(m as int));
    }
    s
}

/// `m` thousandths of a unit, shown with three decimal places.
pub open spec fn thousandths_str(m: int) -> Seq<char> {
    dec_digits((m / 1000) as nat) + seq!['.'] + pad3(m % 1000)
}

pub(crate) fn thousandths_exec(m: u128) -> (s: String)
    ensures
        s@ == thousandths_str(m as int),
{
    proof {
        reveal_strlit(".");
    }
    let mut s = u128_to_string(m / 1000);
    s.append(".");
    let f = pad3_exec(m % 1000);
    s.append(f.as_str());
    proof {
        assert(s@ =~= thousandths_str(m as int));
    }
    s
}

} // verus!
